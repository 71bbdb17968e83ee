//! Memory management core of a small x86_64 kernel: a bitmap allocator for
//! physical frames, a bump allocator for virtual pages, a segregated-list
//! heap with a table of large allocations, and the decisions taken while
//! application processors are started.

use vstd::prelude::*;

pub mod alloc_info;
pub mod allocators;
pub mod apic_ptr;
pub mod bitmap;
pub mod fixed_size_block;
pub mod frame_bounds;
pub mod init;
pub mod interrupts;
pub mod kernel_acpi;
pub mod memory;
pub mod page_allocator;
pub mod paging;
pub mod smp;
pub mod timer;

verus! {

/// How a test run tells the emulator that it has ended.
#[derive(Clone, Copy, Debug, PartialEq, Eq, Structural)]
pub enum QemuExitCode {
    Success,
    Failed,
}

impl QemuExitCode {
    /// The value written to the emulator's exit port.
    pub open spec fn value(self) -> u32 {
        match self {
            QemuExitCode::Success => 0x10,
            QemuExitCode::Failed => 0x11,
        }
    }

    /// The value written to the emulator's exit port.
    pub fn code(self) -> (v: u32)
        ensures
            v == self.value(),
    {
        match self {
            QemuExitCode::Success => 0x10,
            QemuExitCode::Failed => 0x11,
        }
    }
}

} // verus!
