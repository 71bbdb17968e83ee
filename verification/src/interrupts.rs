//! Interrupt vectors, and where the interrupt controllers are found in the
//! direct map.

use crate::memory::PAGE_SIZE;
use vstd::prelude::*;

verus! {

/// Vector of the APIC timer.
pub const TIMER_VEC: u8 = 0x2E;

/// Vector of the keyboard.
pub const KEYBOARD_VEC: u8 = 0x2F;

/// Vector of spurious interrupts.
pub const SPURIOUS_VEC: u8 = 0xFF;

/// First vector of the first legacy interrupt controller.
pub const PIC_1_OFFSET: u8 = 32;

/// First vector of the second legacy interrupt controller.
pub const PIC_2_OFFSET: u8 = 40;

/// Physical address of the I/O APIC.
pub const IO_APIC_BASE: u64 = 0xfec0_0000;

/// The interrupts that arrive through the legacy controllers.
#[derive(Clone, Copy, Debug, PartialEq, Eq, Structural)]
pub enum InterruptIndex {
    Timer,
    Keyboard,
}

impl InterruptIndex {
    /// The vector of the interrupt: the timer at the first vector of the
    /// first controller, the keyboard right behind it.
    pub open spec fn vector(self) -> u8 {
        match self {
            InterruptIndex::Timer => 32,
            InterruptIndex::Keyboard => 33,
        }
    }

    /// The vector of the interrupt.
    pub fn as_u8(self) -> (v: u8)
        ensures
            v == self.vector(),
    {
        match self {
            InterruptIndex::Timer => PIC_1_OFFSET,
            InterruptIndex::Keyboard => PIC_1_OFFSET + 1,
        }
    }
}

/// Address of the local APIC's registers in the direct map: the page of
/// `apic_base` shifted by `offset`, plus the position inside the page.
pub fn map_apic_registers(apic_base: u64, offset: u64) -> (addr: u64)
    requires
        offset + apic_base <= u64::MAX,
    ensures
        addr == offset + apic_base,
{
    let mask: u64 = !(PAGE_SIZE - 1);
    let page_aligned_base: u64 = apic_base & mask;
    assert(apic_base & mask <= apic_base) by (bit_vector);
    let internal_page_offset: u64 = apic_base - page_aligned_base;
    let virt_base: u64 = offset + page_aligned_base;
    virt_base + internal_page_offset
}

/// Address of the I/O APIC's register window in the direct map.
pub fn map_io_apic(offset: u64) -> (addr: u64)
    requires
        offset + IO_APIC_BASE <= u64::MAX,
    ensures
        addr == offset + IO_APIC_BASE,
{
    offset + IO_APIC_BASE
}


/// Offset of the local APIC's task priority register.
pub const APIC_REG_TPR: u32 = 0x80;

/// Offset of the local APIC's spurious interrupt vector register.
pub const APIC_REG_SVR: u32 = 0xF0;

/// The bit of the spurious interrupt vector register that enables the APIC.
pub const APIC_SVR_ENABLE: u32 = 0x100;

/// Offset of the timer entry of the local vector table.
pub const APIC_REG_LVT_TIMER: u32 = 0x320;

/// Offset of the timer's initial count.
pub const APIC_REG_TIMER_INITIAL_COUNT: u32 = 0x380;

/// Offset of the timer's divide configuration.
pub const APIC_REG_TIMER_DIV: u32 = 0x3E0;

/// Index of the first redirection register of the I/O APIC.
pub const IOAPIC_REDIRECTION_BASE: u32 = 0x10;

/// A value to write to a register of an interrupt controller.
#[derive(Clone, Copy, Debug, PartialEq, Eq, Structural)]
pub struct ApicWrite {
    /// Offset or index of the register.
    pub register: u32,
    /// Value to write.
    pub value: u32,
}

/// How an interrupt line signals.
#[derive(Clone, Copy, Debug, PartialEq, Eq, Structural)]
pub enum TriggerMode {
    SameAsBus,
    Edge,
    Level,
}

/// Which level of an interrupt line is active.
#[derive(Clone, Copy, Debug, PartialEq, Eq, Structural)]
pub enum Polarity {
    SameAsBus,
    ActiveHigh,
    ActiveLow,
}

/// The register writes that set up the timer of the local APIC for
/// `vector`: divide by 16, periodic mode, and an initial count.
pub fn init_apic_timer(vector: u8) -> (writes: Vec<ApicWrite>)
    ensures
        writes@ == seq![
            ApicWrite { register: APIC_REG_TIMER_DIV, value: 3 },
            ApicWrite { register: APIC_REG_LVT_TIMER, value: (vector + 0x20000) as u32 },
            ApicWrite { register: APIC_REG_TIMER_INITIAL_COUNT, value: 20_000_000 },
        ],
{
    let lvt_timer_value: u32 = (vector as u32) | 0x20000;
    assert(((vector as u32) | 0x20000u32) == vector + 0x20000u32) by (bit_vector);
    let mut writes: Vec<ApicWrite> = Vec::new();
    writes.push(ApicWrite { register: APIC_REG_TIMER_DIV, value: 3 });
    writes.push(ApicWrite { register: APIC_REG_LVT_TIMER, value: lvt_timer_value });
    writes.push(ApicWrite { register: APIC_REG_TIMER_INITIAL_COUNT, value: 20_000_000 });
    assert(writes@ =~= seq![
        ApicWrite { register: APIC_REG_TIMER_DIV, value: 3 },
        ApicWrite { register: APIC_REG_LVT_TIMER, value: (vector + 0x20000) as u32 },
        ApicWrite { register: APIC_REG_TIMER_INITIAL_COUNT, value: 20_000_000 },
    ]);
    writes
}

/// The register writes that enable the local APIC: the spurious vector with
/// the enable bit, and a task priority that lets every interrupt through.
pub fn enable_local_apic() -> (writes: Vec<ApicWrite>)
    ensures
        writes@ == seq![
            ApicWrite { register: APIC_REG_SVR, value: 0x1FF },
            ApicWrite { register: APIC_REG_TPR, value: 0 },
        ],
{
    let value: u32 = 0xFF | APIC_SVR_ENABLE;
    assert(0xFFu32 | 0x100u32 == 0x1FFu32) by (bit_vector);
    let mut writes: Vec<ApicWrite> = Vec::new();
    writes.push(ApicWrite { register: APIC_REG_SVR, value });
    writes.push(ApicWrite { register: APIC_REG_TPR, value: 0 });
    assert(writes@ =~= seq![
        ApicWrite { register: APIC_REG_SVR, value: 0x1FF },
        ApicWrite { register: APIC_REG_TPR, value: 0 },
    ]);
    writes
}

/// The lower half of a redirection entry: the vector in bits 0 to 7, bit 13
/// for a level-triggered line, bit 15 for a line that is active low. The
/// entry is not masked.
pub open spec fn redirect_low(vector: u8, trigger: TriggerMode, polarity: Polarity) -> int {
    vector + (if trigger == TriggerMode::Level {
        0x2000int
    } else {
        0int
    }) + (if polarity == Polarity::ActiveLow {
        0x8000int
    } else {
        0int
    })
}

/// The writes to the I/O APIC that route the interrupt line `gsi` to
/// `vector` on the processor `dest_apic_id`: the lower half of the entry
/// goes to register `0x10 + 2 * gsi`, the upper half, with the processor in
/// bits 24 to 31, to the register behind it.
pub fn set_ioapic_redirect(
    gsi: u32,
    dest_apic_id: u32,
    vector: u8,
    trigger: TriggerMode,
    polarity: Polarity,
) -> (writes: Vec<ApicWrite>)
    requires
        IOAPIC_REDIRECTION_BASE + 2 * gsi + 1 <= u32::MAX,
    ensures
        writes@ == seq![
            ApicWrite {
                register: (IOAPIC_REDIRECTION_BASE + 2 * gsi) as u32,
                value: redirect_low(vector, trigger, polarity) as u32,
            },
            ApicWrite {
                register: (IOAPIC_REDIRECTION_BASE + 2 * gsi + 1) as u32,
                value: ((dest_apic_id % 256) * 0x100_0000) as u32,
            },
        ],
{
    let redtbl_index_low: u32 = IOAPIC_REDIRECTION_BASE + 2 * gsi;
    let redtbl_index_high: u32 = redtbl_index_low + 1;
    let trigger_bit: u32 = match trigger {
        TriggerMode::Edge => 0,
        TriggerMode::Level => 0x2000,
        TriggerMode::SameAsBus => 0,
    };
    let polarity_bit: u32 = match polarity {
        Polarity::ActiveHigh => 0,
        Polarity::ActiveLow => 0x8000,
        Polarity::SameAsBus => 0,
    };
    let v: u32 = vector as u32;
    let low_dword: u32 = v | trigger_bit | polarity_bit;
    assert((v | trigger_bit | polarity_bit) == v + trigger_bit + polarity_bit) by (bit_vector)
        requires
            v < 256,
            trigger_bit == 0 || trigger_bit == 0x2000,
            polarity_bit == 0 || polarity_bit == 0x8000,
    ;
    let high_dword: u32 = dest_apic_id << 24;
    assert(dest_apic_id << 24 == (dest_apic_id % 256) * 0x100_0000) by (bit_vector);
    let mut writes: Vec<ApicWrite> = Vec::new();
    writes.push(ApicWrite { register: redtbl_index_low, value: low_dword });
    writes.push(ApicWrite { register: redtbl_index_high, value: high_dword });
    assert(writes@ =~= seq![
        ApicWrite {
            register: (IOAPIC_REDIRECTION_BASE + 2 * gsi) as u32,
            value: redirect_low(vector, trigger, polarity) as u32,
        },
        ApicWrite {
            register: (IOAPIC_REDIRECTION_BASE + 2 * gsi + 1) as u32,
            value: ((dest_apic_id % 256) * 0x100_0000) as u32,
        },
    ]);
    writes
}

} // verus!
