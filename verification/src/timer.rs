//! Delays measured with the main counter of the timer.

use vstd::prelude::*;

verus! {

/// Femtoseconds in a millisecond.
pub const FS_PER_MS: u64 = 1_000_000_000_000;

/// Femtoseconds in a microsecond.
pub const FS_PER_US: u64 = 1_000_000_000;

/// The counter value at which a delay of `ms` milliseconds ends that starts
/// at the counter value `start`, for a clock with a period of
/// `clock_tick_unit` femtoseconds. The counter wraps around.
pub fn delay_ms(start: u64, clock_tick_unit: u32, ms: u64) -> (target: u64)
    requires
        clock_tick_unit != 0,
        ms * FS_PER_MS <= u64::MAX,
    ensures
        target == (start + (ms * FS_PER_MS) / (clock_tick_unit as int)) % 0x1_0000_0000_0000_0000,
{
    let delay_fs: u64 = ms * FS_PER_MS;
    let ticks_to_wait: u64 = delay_fs / (clock_tick_unit as u64);
    start.wrapping_add(ticks_to_wait)
}

/// The counter value at which a delay of `us` microseconds ends that starts
/// at the counter value `start`.
pub fn delay_us(start: u64, clock_tick_unit: u32, us: u64) -> (target: u64)
    requires
        clock_tick_unit != 0,
        us * FS_PER_US <= u64::MAX,
    ensures
        target == (start + (us * FS_PER_US) / (clock_tick_unit as int)) % 0x1_0000_0000_0000_0000,
{
    let delay_fs: u64 = us * FS_PER_US;
    let ticks_to_wait: u64 = delay_fs / (clock_tick_unit as u64);
    start.wrapping_add(ticks_to_wait)
}

/// Whether a delay that ends at the counter value `target` is still running
/// when the counter reads `counter`.
pub fn delay_pending(counter: u64, target: u64) -> (pending: bool)
    ensures
        pending == (counter < target),
{
    counter < target
}

} // verus!
