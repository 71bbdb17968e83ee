//! Addresses, pages and page-table flags as the `x86_64` crate defines them.

use vstd::prelude::*;
use x86_64::structures::paging::{Page, PageTableFlags, PhysFrame, Size4KiB};
use x86_64::{PhysAddr, VirtAddr};

verus! {

/// Bits 47 to 63 of a canonical virtual address are all equal.
pub open spec fn is_canonical(addr: u64) -> bool {
    addr < 0x0000_8000_0000_0000 || addr >= 0xFFFF_8000_0000_0000
}

/// A physical address has no bit set from bit 52 on.
pub open spec fn is_physical(addr: u64) -> bool {
    addr < 0x10_0000_0000_0000
}

/// `Page::containing_address` on `VirtAddr::new(addr)`: the start of the
/// 4 KiB page that holds `addr`. `VirtAddr::new` panics for an address that
/// is not canonical. Not proved.
#[verifier::external_body]
pub(crate) fn page_containing(addr: u64) -> (page: u64)
    requires
        is_canonical(addr),
    ensures
        page == addr - addr % 4096,
{
    Page::<Size4KiB>::containing_address(VirtAddr::new(addr)).start_address().as_u64()
}

/// `PhysFrame::containing_address` on `PhysAddr::new(addr)`: the start of the
/// 4 KiB frame that holds `addr`. `PhysAddr::new` panics for an address with
/// a bit set from bit 52 on. Not proved.
#[verifier::external_body]
pub(crate) fn frame_containing(addr: u64) -> (frame: u64)
    requires
        is_physical(addr),
    ensures
        frame == addr - addr % 4096,
{
    PhysFrame::<Size4KiB>::containing_address(PhysAddr::new(addr)).start_address().as_u64()
}

/// The flags of a page-table entry that this kernel sets.
#[derive(Clone, Copy, Debug, PartialEq, Eq, Structural)]
pub struct PageFlags {
    /// The page is present.
    pub present: bool,
    /// The page may be written.
    pub writable: bool,
    /// Accesses to the page bypass the cache.
    pub no_cache: bool,
}

impl PageFlags {
    /// The flags as the bits of a page-table entry: bit 0 for a present
    /// page, bit 1 for a writable one, bit 4 for one that is not cached.
    pub open spec fn bits(self) -> u64 {
        ((if self.present { 1int } else { 0int }) + (if self.writable { 2int } else { 0int }) + (if self.no_cache { 16int } else { 0int })) as u64
    }

    /// Present and writable: the flags of ordinary kernel memory.
    pub open spec fn present_writable() -> Self {
        PageFlags { present: true, writable: true, no_cache: false }
    }

    /// Present and writable: the flags of ordinary kernel memory.
    pub fn read_write() -> (flags: Self)
        ensures
            flags == Self::present_writable(),
            flags.bits() == 3,
    {
        PageFlags { present: true, writable: true, no_cache: false }
    }

    /// Present, writable and not cached: the flags of memory that another
    /// processor or a device reads.
    pub fn uncached() -> (flags: Self)
        ensures
            flags == (PageFlags { present: true, writable: true, no_cache: true }),
    {
        PageFlags { present: true, writable: true, no_cache: true }
    }

    /// The flags as the bits of a page-table entry.
    pub fn to_bits(&self) -> (bits: u64)
        ensures
            bits == self.bits(),
    {
        flag_bits(*self)
    }
}

/// `PageTableFlags::bits` of the flags built with `PageTableFlags::set` from
/// `PRESENT`, `WRITABLE` and `NO_CACHE`: bits 0, 1 and 4 of the result are
/// set where the flag is, and no other bit. Not proved.
#[verifier::external_body]
pub(crate) fn flag_bits(flags: PageFlags) -> (bits: u64)
    ensures
        bits == flags.bits(),
{
    let mut table_flags = PageTableFlags::empty();
    table_flags.set(PageTableFlags::PRESENT, flags.present);
    table_flags.set(PageTableFlags::WRITABLE, flags.writable);
    table_flags.set(PageTableFlags::NO_CACHE, flags.no_cache);
    table_flags.bits()
}

} // verus!
