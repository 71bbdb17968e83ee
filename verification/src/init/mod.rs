//! What the kernel settles while it starts: the offset of the direct map,
//! the timer, and the other processors.

pub mod hpet;
pub mod memory_init;
pub mod multicore;
