//! The address at which the registers of the local APIC are mapped.

use vstd::prelude::*;

verus! {

/// Address of the memory-mapped registers of the local APIC. It is set once
/// while the kernel starts and only read afterwards.
#[derive(Clone, Copy, Debug, PartialEq, Eq, Structural)]
pub struct ApicPtr {
    ptr: u64,
}

impl ApicPtr {
    /// The address held.
    pub closed spec fn addr(self) -> u64 {
        self.ptr
    }

    /// Wraps the address `ptr`.
    pub fn new(ptr: u64) -> (apic: Self)
        ensures
            apic.addr() == ptr,
    {
        ApicPtr { ptr }
    }

    /// The address as an integer.
    pub fn as_u64(&self) -> (addr: u64)
        ensures
            addr == self.addr(),
    {
        self.ptr
    }

    /// Address of the 32-bit register at byte offset `reg_offset`: registers
    /// are counted in words of four bytes from the base.
    pub fn register(&self, reg_offset: u32) -> (addr: u64)
        requires
            self.addr() + reg_offset <= u64::MAX,
        ensures
            addr == self.addr() + (reg_offset / 4) * 4,
    {
        let index: u64 = (reg_offset / 4) as u64;
        self.ptr + index * 4
    }
}

/// The APIC pointer for the address `ptr`.
pub fn as_apic_ptr(ptr: u64) -> (apic: ApicPtr)
    ensures
        apic.addr() == ptr,
{
    ApicPtr::new(ptr)
}

} // verus!
