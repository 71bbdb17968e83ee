//! Starting the application processors one after the other: the stacks they
//! get, the interrupts that wake them, and what to do next at each point.

use crate::page_allocator::{Mapper, PageAllocator, RemapError};
use crate::paging::PageFlags;
use crate::smp::trampoline::TRAMPOLINE_BASE;
use vstd::prelude::*;

verus! {

/// Number of stacks for application processors.
pub const NUM_AP_STACKS: usize = 4;

/// Size of one stack in bytes.
pub const AP_STACK_SIZE: u64 = 32768;

/// Offset of the local APIC's error status register.
pub const APIC_ERROR_STATUS: u32 = 0x280;

/// Offset of the lower half of the interrupt command register.
pub const APIC_ICR_LOW: u32 = 0x300;

/// Offset of the upper half of the interrupt command register.
pub const APIC_ICR_HIGH: u32 = 0x310;

/// Command of an INIT interrupt.
pub const INIT_IPI: u32 = 0x0000_4500;

/// Command of a startup interrupt, to which the vector is added.
pub const STARTUP_IPI: u32 = 0x0000_4600;

/// Microseconds to wait after the INIT interrupt.
pub const INIT_DELAY_US: u64 = 10_000;

/// Microseconds to wait after the first startup interrupt.
pub const FIRST_SIPI_DELAY_US: u64 = 200;

/// Microseconds to wait after the second startup interrupt.
pub const SECOND_SIPI_DELAY_US: u64 = 100;

/// Microseconds to wait for a processor to reach the kernel.
pub const AP_TIMEOUT_US: u64 = 100_000;

/// The stack of one application processor, given by its lowest address.
#[derive(Clone, Copy, Debug, PartialEq, Eq, Structural)]
pub struct Stack {
    pub base: u64,
}

impl Stack {
    /// The address right behind the stack, where it starts to grow down.
    pub fn top(&self) -> (top: u64)
        requires
            self.base + AP_STACK_SIZE <= u64::MAX,
        ensures
            top == self.base + AP_STACK_SIZE,
    {
        self.base + AP_STACK_SIZE
    }
}

/// The stacks for application processors: `NUM_AP_STACKS` stacks in a row,
/// handed out in address order and never taken back.
pub struct ApStackPool {
    base: u64,
    next: usize,
}

impl ApStackPool {
    /// Lowest address of the first stack.
    pub closed spec fn start(&self) -> u64 {
        self.base
    }

    /// Number of stacks handed out.
    pub closed spec fn used(&self) -> nat {
        self.next as nat
    }

    /// The stacks are aligned to 16 bytes and end inside the address space,
    /// and no more are handed out than there are.
    pub open spec fn wf(&self) -> bool {
        &&& self.start() % 16 == 0
        &&& self.start() + NUM_AP_STACKS * AP_STACK_SIZE <= u64::MAX
        &&& self.used() <= NUM_AP_STACKS
    }

    /// Top of the stack with the given index.
    pub open spec fn top_of(&self, index: int) -> int {
        self.start() + (index + 1) * AP_STACK_SIZE
    }

    /// A pool of stacks that start at `base`, none handed out.
    pub fn new(base: u64) -> (pool: Self)
        requires
            base % 16 == 0,
            base + NUM_AP_STACKS * AP_STACK_SIZE <= u64::MAX,
        ensures
            pool.wf(),
            pool.start() == base,
            pool.used() == 0,
    {
        ApStackPool { base, next: 0 }
    }

    /// Number of stacks that are left.
    pub fn remaining(&self) -> (n: usize)
        requires
            self.wf(),
        ensures
            n == NUM_AP_STACKS - self.used(),
    {
        NUM_AP_STACKS - self.next
    }
}

/// Hands out the next stack and returns its top, which is aligned to 16
/// bytes.
pub fn allocate_ap_stack(pool: &mut ApStackPool) -> (top: u64)
    requires
        old(pool).wf(),
        old(pool).used() < NUM_AP_STACKS,
    ensures
        final(pool).wf(),
        final(pool).start() == old(pool).start(),
        final(pool).used() == old(pool).used() + 1,
        top == old(pool).top_of(old(pool).used() as int),
        top % 16 == 0,
{
    let index = pool.next;
    pool.next = index + 1;
    let stack = Stack { base: pool.base + (index as u64) * AP_STACK_SIZE };
    stack.top()
}

/// Stacks with different indices have different tops.
pub proof fn lemma_stack_tops_differ(pool: ApStackPool, i: int, j: int)
    requires
        i != j,
    ensures
        pool.top_of(i) != pool.top_of(j),
{
}

/// A value to write to a register of the local APIC.
#[derive(Clone, Copy, Debug, PartialEq, Eq, Structural)]
pub struct RegisterWrite {
    /// Byte offset of the register.
    pub offset: u32,
    /// Value to write.
    pub value: u32,
}

/// The upper half of the interrupt command register for the processor
/// `apic_id`: its low eight bits in bits 24 to 31, the other bits as they
/// are in `current`.
pub open spec fn icr_high_value(current: u32, apic_id: u32) -> u32 {
    (current & 0x00FF_FFFF) | ((apic_id & 0xff) << 24)
}

/// The value to write to the upper half of the interrupt command register
/// to address the processor `apic_id`.
pub fn icr_high_for(current: u32, apic_id: u32) -> (value: u32)
    ensures
        value == icr_high_value(current, apic_id),
        value / 0x100_0000 == apic_id % 256,
        value % 0x100_0000 == current % 0x100_0000,
{
    let id8: u32 = apic_id & 0xff;
    let high: u32 = current & 0x00FF_FFFF;
    let value: u32 = high | (id8 << 24);
    assert(((current & 0x00FF_FFFF) | ((apic_id & 0xff) << 24)) / 0x100_0000 == apic_id % 256)
        by (bit_vector);
    assert(((current & 0x00FF_FFFF) | ((apic_id & 0xff) << 24)) % 0x100_0000 == current
        % 0x100_0000) by (bit_vector);
    value
}

/// The register writes that send an INIT interrupt to the processor
/// `apic_id`, in order: clear the error status, address the processor,
/// give the command. `icr_high` is what the upper half of the interrupt
/// command register holds.
pub fn send_init_ipi(icr_high: u32, apic_id: u32) -> (writes: Vec<RegisterWrite>)
    ensures
        writes@ == seq![
            RegisterWrite { offset: APIC_ERROR_STATUS, value: 0 },
            RegisterWrite { offset: APIC_ICR_HIGH, value: icr_high_value(icr_high, apic_id) },
            RegisterWrite { offset: APIC_ICR_LOW, value: INIT_IPI },
        ],
{
    let mut writes: Vec<RegisterWrite> = Vec::new();
    writes.push(RegisterWrite { offset: APIC_ERROR_STATUS, value: 0 });
    writes.push(RegisterWrite { offset: APIC_ICR_HIGH, value: icr_high_for(icr_high, apic_id) });
    writes.push(RegisterWrite { offset: APIC_ICR_LOW, value: INIT_IPI });
    assert(writes@ =~= seq![
        RegisterWrite { offset: APIC_ERROR_STATUS, value: 0 },
        RegisterWrite { offset: APIC_ICR_HIGH, value: icr_high_value(icr_high, apic_id) },
        RegisterWrite { offset: APIC_ICR_LOW, value: INIT_IPI },
    ]);
    writes
}

/// The command of a startup interrupt that lets a processor begin at page
/// `vector` of physical memory.
pub open spec fn startup_command(vector: u8) -> u32 {
    (vector as u32) | STARTUP_IPI
}

/// The register writes that send a startup interrupt with the given vector
/// to the processor `apic_id`, in order. `icr_high` is what the upper half
/// of the interrupt command register holds.
pub fn send_startup_ipi(icr_high: u32, apic_id: u32, vector: u8) -> (writes: Vec<RegisterWrite>)
    ensures
        writes@ == seq![
            RegisterWrite { offset: APIC_ERROR_STATUS, value: 0 },
            RegisterWrite { offset: APIC_ICR_HIGH, value: icr_high_value(icr_high, apic_id) },
            RegisterWrite { offset: APIC_ICR_LOW, value: startup_command(vector) },
        ],
        startup_command(vector) == vector + STARTUP_IPI,
{
    let command: u32 = (vector as u32) | STARTUP_IPI;
    assert(((vector as u32) | 0x4600u32) == vector + 0x4600u32) by (bit_vector);
    let mut writes: Vec<RegisterWrite> = Vec::new();
    writes.push(RegisterWrite { offset: APIC_ERROR_STATUS, value: 0 });
    writes.push(RegisterWrite { offset: APIC_ICR_HIGH, value: icr_high_for(icr_high, apic_id) });
    writes.push(RegisterWrite { offset: APIC_ICR_LOW, value: command });
    assert(writes@ =~= seq![
        RegisterWrite { offset: APIC_ERROR_STATUS, value: 0 },
        RegisterWrite { offset: APIC_ICR_HIGH, value: icr_high_value(icr_high, apic_id) },
        RegisterWrite { offset: APIC_ICR_LOW, value: startup_command(vector) },
    ]);
    writes
}

/// The vector of the startup interrupt for the trampoline: the number of its
/// page.
pub fn trampoline_vector() -> (vector: u8)
    ensures
        vector == TRAMPOLINE_BASE / 4096,
{
    (TRAMPOLINE_BASE / 4096) as u8
}

/// Flag bits of the trampoline's page: present, writable and not cached.
pub const UNCACHED_FLAGS: u64 = 0x13;

/// Maps the trampoline's page anew, writable and not cached, so that a
/// processor whose cache is not yet in use sees what was written: asks the
/// page tables to unmap the page, and then to map it with the flag bits
/// `UNCACHED_FLAGS`, to the frame it had or, where it was not mapped, to
/// the trampoline's frame.
pub fn remap_trampoline_uncacheable<M: Mapper>(pages: &mut PageAllocator<M>) -> (r: Result<
    (),
    RemapError,
>)
    requires
        old(pages).wf(),
        TRAMPOLINE_BASE + 4096 <= old(pages).start() || TRAMPOLINE_BASE >= old(pages).end(),
    ensures
        final(pages).wf(),
        final(pages).same_as(old(pages)),
        final(pages).asked_to_remap(old(pages), TRAMPOLINE_BASE, TRAMPOLINE_BASE, UNCACHED_FLAGS, r),
{
    pages.remap(TRAMPOLINE_BASE, TRAMPOLINE_BASE, PageFlags::uncached())
}

/// How firmware reports a processor.
#[derive(Clone, Copy, Debug, PartialEq, Eq, Structural)]
pub enum ProcessorState {
    /// The processor cannot be used.
    Disabled,
    /// The processor waits for a startup interrupt.
    WaitingForSipi,
    /// The processor runs.
    Running,
}

/// A processor that firmware reports.
#[derive(Clone, Copy, Debug, PartialEq, Eq, Structural)]
pub struct Processor {
    pub local_apic_id: u32,
    pub state: ProcessorState,
}

/// How far the start of one application processor has come.
#[derive(Clone, Copy, Debug, PartialEq, Eq, Structural)]
pub enum ApState {
    /// Nothing was sent.
    Idle,
    /// The INIT interrupt was sent.
    InitSent,
    /// A startup interrupt was sent.
    SipiSent,
    /// The processor has reached the kernel.
    Running,
    /// The processor did not reach the kernel in time.
    Failed,
}

/// What the boot processor is asked to do.
#[derive(Clone, Copy, Debug, PartialEq, Eq, Structural)]
pub enum SmpAction {
    /// Write the trampoline's fields with this stack top and clear its
    /// communication word.
    Patch { stack_top: u64 },
    /// Send an INIT interrupt to the processor.
    SendInit { apic_id: u32 },
    /// Send a startup interrupt with this vector to the processor.
    SendStartup { apic_id: u32, vector: u8 },
    /// Wait this many microseconds.
    DelayUs(u64),
    /// Watch the communication word for at most this many microseconds and
    /// report whether it came to read 1.
    AwaitCommWord { timeout_us: u64 },
}

/// What the boot processor reports back.
#[derive(Clone, Copy, Debug, PartialEq, Eq, Structural)]
pub enum SmpEvent {
    /// The actions asked for are done.
    Done,
    /// The wait for the communication word has ended: `true` where it came
    /// to read 1 in time.
    CommWord(bool),
}

/// Whether an application processor was started.
#[derive(Clone, Copy, Debug, PartialEq, Eq, Structural)]
pub struct ApOutcome {
    pub apic_id: u32,
    pub started: bool,
}

/// The actions that begin the start of a processor.
pub open spec fn begin_actions(apic_id: u32, stack_top: u64) -> Seq<SmpAction> {
    seq![
        SmpAction::Patch { stack_top },
        SmpAction::SendInit { apic_id },
        SmpAction::DelayUs(INIT_DELAY_US),
    ]
}

/// State, number of startup interrupts sent, and actions that follow from
/// `event` for a processor in `state` after `sipis` startup interrupts.
/// After the INIT interrupt come two startup interrupts, each when the
/// actions before it are done; after the second the communication word
/// decides. An event that does not fit changes nothing.
pub open spec fn ap_step(state: ApState, sipis: int, apic_id: u32, event: SmpEvent) -> (
    ApState,
    int,
    Seq<SmpAction>,
) {
    match (state, event) {
        (ApState::InitSent, SmpEvent::Done) => (
            ApState::SipiSent,
            1,
            seq![
                SmpAction::SendStartup { apic_id, vector: 8 },
                SmpAction::DelayUs(FIRST_SIPI_DELAY_US),
            ],
        ),
        (ApState::SipiSent, SmpEvent::Done) => if sipis == 1 {
            (
                ApState::SipiSent,
                2,
                seq![
                    SmpAction::SendStartup { apic_id, vector: 8 },
                    SmpAction::DelayUs(SECOND_SIPI_DELAY_US),
                    SmpAction::AwaitCommWord { timeout_us: AP_TIMEOUT_US },
                ],
            )
        } else {
            (state, sipis, Seq::empty())
        },
        (ApState::SipiSent, SmpEvent::CommWord(arrived)) => if sipis == 2 {
            (
                if arrived {
                    ApState::Running
                } else {
                    ApState::Failed
                },
                sipis,
                Seq::empty(),
            )
        } else {
            (state, sipis, Seq::empty())
        },
        _ => (state, sipis, Seq::empty()),
    }
}

/// The start of one application processor.
#[derive(Clone, Copy, Debug, PartialEq, Eq, Structural)]
pub struct ApBringup {
    apic_id: u32,
    state: ApState,
    sipis_sent: u8,
}

impl ApBringup {
    /// The processor that is started.
    pub closed spec fn id(&self) -> u32 {
        self.apic_id
    }

    /// How far the start has come.
    pub closed spec fn progress(&self) -> ApState {
        self.state
    }

    /// Number of startup interrupts sent.
    pub closed spec fn sipis(&self) -> int {
        self.sipis_sent as int
    }

    /// At most two startup interrupts were sent.
    pub open spec fn wf(&self) -> bool {
        0 <= self.sipis() <= 2
    }

    /// The start of the processor `apic_id`, with nothing sent.
    pub fn new(apic_id: u32) -> (ap: Self)
        ensures
            ap.wf(),
            ap.id() == apic_id,
            ap.progress() == ApState::Idle,
            ap.sipis() == 0,
    {
        ApBringup { apic_id, state: ApState::Idle, sipis_sent: 0 }
    }

    /// How far the start has come.
    pub fn state(&self) -> (state: ApState)
        ensures
            state == self.progress(),
    {
        self.state
    }

    /// The processor that is started.
    pub fn apic_id(&self) -> (id: u32)
        ensures
            id == self.id(),
    {
        self.apic_id
    }

    /// Begins the start of an idle processor with the stack that ends at
    /// `stack_top`: patch the trampoline, send the INIT interrupt, wait.
    /// A processor that is not idle is left alone.
    pub fn begin(&mut self, stack_top: u64) -> (actions: Vec<SmpAction>)
        requires
            old(self).wf(),
        ensures
            final(self).wf(),
            final(self).id() == old(self).id(),
            final(self).sipis() == old(self).sipis(),
            if old(self).progress() == ApState::Idle {
                final(self).progress() == ApState::InitSent && actions@ == begin_actions(
                    old(self).id(),
                    stack_top,
                )
            } else {
                final(self).progress() == old(self).progress() && actions@ == Seq::<SmpAction>::empty()
            },
    {
        let mut actions: Vec<SmpAction> = Vec::new();
        if self.state == ApState::Idle {
            self.state = ApState::InitSent;
            actions.push(SmpAction::Patch { stack_top });
            actions.push(SmpAction::SendInit { apic_id: self.apic_id });
            actions.push(SmpAction::DelayUs(INIT_DELAY_US));
            assert(actions@ =~= begin_actions(self.apic_id, stack_top));
        }
        actions
    }

    /// Takes what the boot processor reports and says what to do next.
    pub fn step(&mut self, event: SmpEvent) -> (actions: Vec<SmpAction>)
        requires
            old(self).wf(),
        ensures
            final(self).wf(),
            final(self).id() == old(self).id(),
            (final(self).progress(), final(self).sipis(), actions@) == ap_step(
                old(self).progress(),
                old(self).sipis(),
                old(self).id(),
                event,
            ),
    {
        let mut actions: Vec<SmpAction> = Vec::new();
        let vector = trampoline_vector();
        match (self.state, event) {
            (ApState::InitSent, SmpEvent::Done) => {
                self.state = ApState::SipiSent;
                self.sipis_sent = 1;
                actions.push(SmpAction::SendStartup { apic_id: self.apic_id, vector });
                actions.push(SmpAction::DelayUs(FIRST_SIPI_DELAY_US));
                assert(actions@ =~= seq![
                    SmpAction::SendStartup { apic_id: self.apic_id, vector: 8 },
                    SmpAction::DelayUs(FIRST_SIPI_DELAY_US),
                ]);
            },
            (ApState::SipiSent, SmpEvent::Done) => {
                if self.sipis_sent == 1 {
                    self.sipis_sent = 2;
                    actions.push(SmpAction::SendStartup { apic_id: self.apic_id, vector });
                    actions.push(SmpAction::DelayUs(SECOND_SIPI_DELAY_US));
                    actions.push(SmpAction::AwaitCommWord { timeout_us: AP_TIMEOUT_US });
                    assert(actions@ =~= seq![
                        SmpAction::SendStartup { apic_id: self.apic_id, vector: 8 },
                        SmpAction::DelayUs(SECOND_SIPI_DELAY_US),
                        SmpAction::AwaitCommWord { timeout_us: AP_TIMEOUT_US },
                    ]);
                }
            },
            (ApState::SipiSent, SmpEvent::CommWord(arrived)) => {
                if self.sipis_sent == 2 {
                    if arrived {
                        self.state = ApState::Running;
                    } else {
                        self.state = ApState::Failed;
                    }
                }
            },
            _ => {},
        }
        actions
    }
}


/// Number of processors from position `from` on that wait for a startup
/// interrupt.
pub open spec fn waiting_from(processors: Seq<Processor>, from: int) -> nat
    decreases processors.len() - from,
{
    if from < 0 || from >= processors.len() {
        0
    } else {
        waiting_from(processors, from + 1) + if processors[from].state
            == ProcessorState::WaitingForSipi {
            1nat
        } else {
            0nat
        }
    }
}

/// Position of the first processor from position `from` on that waits for a
/// startup interrupt; the number of processors where there is none.
pub open spec fn next_waiting(processors: Seq<Processor>, from: int) -> int
    decreases processors.len() - from,
{
    if from < 0 || from >= processors.len() {
        processors.len() as int
    } else if processors[from].state == ProcessorState::WaitingForSipi {
        from
    } else {
        next_waiting(processors, from + 1)
    }
}

/// The processors between `from` and the next one that waits do not count
/// as waiting.
pub proof fn lemma_next_waiting(processors: Seq<Processor>, from: int)
    requires
        0 <= from <= processors.len(),
    ensures
        from <= next_waiting(processors, from) <= processors.len(),
        waiting_from(processors, next_waiting(processors, from)) == waiting_from(processors, from),
        next_waiting(processors, from) < processors.len() ==> processors[next_waiting(
            processors,
            from,
        )].state == ProcessorState::WaitingForSipi,
        forall|i: int|
            from <= i < next_waiting(processors, from) ==> (#[trigger] processors[i]).state
                != ProcessorState::WaitingForSipi,
    decreases processors.len() - from,
{
    if from < processors.len() && processors[from].state != ProcessorState::WaitingForSipi {
        lemma_next_waiting(processors, from + 1);
    }
}

/// Starts the waiting processors one after the other, in the order in which
/// firmware reports them.
pub struct SmpController {
    processors: Vec<Processor>,
    index: usize,
    current: Option<ApBringup>,
    pool: ApStackPool,
    outcomes: Vec<ApOutcome>,
}

impl SmpController {
    /// The processors that firmware reports.
    pub closed spec fn processors(&self) -> Seq<Processor> {
        self.processors@
    }

    /// Position of the processor that is being started, or of the first that
    /// was not looked at yet.
    pub closed spec fn position(&self) -> int {
        self.index as int
    }

    /// The start that is under way.
    pub closed spec fn current(&self) -> Option<ApBringup> {
        self.current
    }

    /// The stacks.
    pub closed spec fn stacks(&self) -> ApStackPool {
        self.pool
    }

    /// What became of the processors dealt with, in order.
    pub closed spec fn outcomes(&self) -> Seq<ApOutcome> {
        self.outcomes@
    }

    /// The start under way belongs to the waiting processor at the position,
    /// and there is a stack for every processor that still waits.
    pub open spec fn wf(&self) -> bool {
        &&& 0 <= self.position() <= self.processors().len()
        &&& self.stacks().wf()
        &&& match self.current() {
            Some(ap) => {
                &&& ap.wf()
                &&& self.position() < self.processors().len()
                &&& self.processors()[self.position()].state == ProcessorState::WaitingForSipi
                &&& ap.id() == self.processors()[self.position()].local_apic_id
                &&& (ap.progress() == ApState::InitSent || ap.progress() == ApState::SipiSent)
                &&& waiting_from(self.processors(), self.position() + 1) + self.stacks().used()
                    <= NUM_AP_STACKS
            },
            None => waiting_from(self.processors(), self.position()) + self.stacks().used()
                <= NUM_AP_STACKS,
        }
    }

    /// Every processor was dealt with.
    pub open spec fn finished(&self) -> bool {
        self.current() is None && self.position() == self.processors().len()
    }

    /// The controller has turned from position `from` to the next processor
    /// that waits: it has given it the next stack and asks for the actions
    /// that begin its start. Where no processor waits it has finished and
    /// asks for nothing.
    pub open spec fn turned_to_next(&self, before: &Self, from: int, actions: Seq<SmpAction>) -> bool {
        let next = next_waiting(before.processors(), from);
        &&& self.processors() == before.processors()
        &&& self.position() == next
        &&& self.stacks().start() == before.stacks().start()
        &&& if next < before.processors().len() {
            &&& self.current() matches Some(ap) && ap.id() == before.processors()[next].local_apic_id
                && ap.progress() == ApState::InitSent && ap.sipis() == 0
            &&& self.stacks().used() == before.stacks().used() + 1
            &&& actions == begin_actions(
                before.processors()[next].local_apic_id,
                before.stacks().top_of(before.stacks().used() as int) as u64,
            )
        } else {
            &&& self.current() is None
            &&& self.stacks().used() == before.stacks().used()
            &&& actions == Seq::<SmpAction>::empty()
        }
    }

    /// What `advance` does. While a start is under way the event goes to it.
    /// When it ends, with the processor running or failed, the outcome is
    /// noted and the controller turns to the next processor that waits. With
    /// no start under way it turns to the first processor that waits.
    pub open spec fn advanced(&self, before: &Self, event: SmpEvent, actions: Seq<SmpAction>) -> bool {
        match before.current() {
            Some(ap) => {
                let (state, sipis, asked) = ap_step(ap.progress(), ap.sipis(), ap.id(), event);
                if state == ApState::Running || state == ApState::Failed {
                    &&& self.outcomes() == before.outcomes().push(
                        ApOutcome { apic_id: ap.id(), started: state == ApState::Running },
                    )
                    &&& self.turned_to_next(before, before.position() + 1, actions)
                } else {
                    &&& self.outcomes() == before.outcomes()
                    &&& self.processors() == before.processors()
                    &&& self.position() == before.position()
                    &&& self.stacks() == before.stacks()
                    &&& self.current() matches Some(now) && now.id() == ap.id() && now.progress()
                        == state && now.sipis() == sipis
                    &&& actions == asked
                }
            },
            None => {
                &&& self.outcomes() == before.outcomes()
                &&& self.turned_to_next(before, before.position(), actions)
            },
        }
    }

    /// Whether every processor was dealt with.
    pub fn is_finished(&self) -> (done: bool)
        ensures
            done == self.finished(),
    {
        self.current.is_none() && self.index == self.processors.len()
    }

    /// What became of the processors dealt with so far, in order.
    pub fn results(&self) -> (outcomes: &Vec<ApOutcome>)
        ensures
            outcomes@ == self.outcomes(),
    {
        &self.outcomes
    }

    /// Turns to the first processor at or behind position `from` that waits.
    fn turn_to_next(&mut self, from: usize) -> (actions: Vec<SmpAction>)
        requires
            old(self).current() is None,
            from <= old(self).processors().len(),
            old(self).stacks().wf(),
            waiting_from(old(self).processors(), from as int) + old(self).stacks().used()
                <= NUM_AP_STACKS,
        ensures
            final(self).wf(),
            final(self).outcomes() == old(self).outcomes(),
            final(self).turned_to_next(old(self), from as int, actions@),
    {
        let mut i: usize = from;
        while i < self.processors.len() && self.processors[i].state != ProcessorState::WaitingForSipi
            invariant
                from <= i <= self.processors@.len(),
                *self == *old(self),
                next_waiting(self.processors@, i as int) == next_waiting(
                    self.processors@,
                    from as int,
                ),
            decreases self.processors@.len() - i,
        {
            i += 1;
        }
        proof {
            lemma_next_waiting(self.processors@, from as int);
        }
        self.index = i;
        if i < self.processors.len() {
            let apic_id = self.processors[i].local_apic_id;
            let stack_top = allocate_ap_stack(&mut self.pool);
            let mut ap = ApBringup::new(apic_id);
            let actions = ap.begin(stack_top);
            self.current = Some(ap);
            actions
        } else {
            Vec::new()
        }
    }

    /// Takes what the boot processor reports and says what to do next. The
    /// first call, whatever its event, turns to the first processor that
    /// waits.
    pub fn advance(&mut self, event: SmpEvent) -> (actions: Vec<SmpAction>)
        requires
            old(self).wf(),
        ensures
            final(self).wf(),
            final(self).advanced(old(self), event, actions@),
    {
        match self.current {
            Some(mut ap) => {
                let actions = ap.step(event);
                let state = ap.state();
                if state == ApState::Running || state == ApState::Failed {
                    self.outcomes.push(
                        ApOutcome { apic_id: ap.apic_id(), started: state == ApState::Running },
                    );
                    self.current = None;
                    let len = self.processors.len();
                    assert(self.index < len);
                    let from = self.index + 1;
                    let ghost middle = *self;
                    let actions = self.turn_to_next(from);
                    proof {
                        assert(self.turned_to_next(&middle, from as int, actions@));
                        assert(middle.processors() == old(self).processors());
                        assert(middle.stacks() == old(self).stacks());
                    }
                    actions
                } else {
                    self.current = Some(ap);
                    actions
                }
            },
            None => {
                let from = self.index;
                self.turn_to_next(from)
            },
        }
    }
}

/// A controller for the processors that firmware reports, with nothing
/// started yet.
pub fn init_smp(processors: Vec<Processor>, pool: ApStackPool) -> (controller: SmpController)
    requires
        pool.wf(),
        waiting_from(processors@, 0) + pool.used() <= NUM_AP_STACKS,
    ensures
        controller.wf(),
        controller.processors() == processors@,
        controller.position() == 0,
        controller.current() is None,
        controller.stacks() == pool,
        controller.outcomes() == Seq::<ApOutcome>::empty(),
{
    SmpController { processors, index: 0, current: None, pool, outcomes: Vec::new() }
}

} // verus!
