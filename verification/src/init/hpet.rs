//! Registers of the high precision event timer.

use vstd::prelude::*;

verus! {

/// Offset of the capabilities register.
pub const HPET_CAPS_OFFSET: usize = 0x0;

/// Offset of the configuration register.
pub const HPET_CONFIG_OFFSET: usize = 0x10;

/// Offset of the main counter.
pub const HPET_COUNTER_OFFSET: usize = 0xF0;

/// The period of the timer's clock in femtoseconds, which the upper half of
/// the capabilities register holds.
pub fn get_clock_tick_unit_fallback(capabilities: u64) -> (period: u32)
    ensures
        period == capabilities / 0x1_0000_0000,
{
    let upper: u64 = capabilities >> 32;
    assert(capabilities >> 32 == capabilities / 0x1_0000_0000) by (bit_vector);
    upper as u32
}

} // verus!
