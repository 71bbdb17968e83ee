//! What the parser of the ACPI tables asks of the kernel: where a physical
//! region is found in virtual memory.

use crate::page_allocator::{Mapper, PageAllocError, PageAllocator};
use crate::paging::PageFlags;
use vstd::prelude::*;

verus! {

/// A physical region and the virtual address at which it can be read.
#[derive(Clone, Copy, Debug, PartialEq, Eq, Structural)]
pub struct PhysicalMapping {
    /// Physical address of the region.
    pub physical_start: u64,
    /// Virtual address of the region.
    pub virtual_start: u64,
    /// Number of bytes asked for.
    pub region_length: usize,
    /// Number of bytes from the start of the region's first page to the end
    /// of the region.
    pub mapped_length: usize,
}

/// Finds physical regions in the direct map, where all physical memory is
/// mapped for good.
#[derive(Clone, Copy, Debug)]
pub struct KernelAcpiHandler;

impl KernelAcpiHandler {
    /// The mapping of the `size` bytes at `physical_address` for a direct map
    /// that starts at `offset`: the region is found at `offset +
    /// physical_address`. There is no mapping at the null address.
    pub fn map_physical_region(&self, physical_address: u64, size: usize, offset: u64) -> (mapping:
        Option<PhysicalMapping>)
        requires
            offset + physical_address <= u64::MAX,
            physical_address % 4096 + size <= usize::MAX,
        ensures
            mapping == if offset + physical_address == 0 {
                None
            } else {
                Some(
                    PhysicalMapping {
                        physical_start: physical_address,
                        virtual_start: (offset + physical_address) as u64,
                        region_length: size,
                        mapped_length: (physical_address % 4096 + size) as usize,
                    },
                )
            },
    {
        let offset_in_page: u64 = physical_address % 4096;
        let phys_base_page: u64 = physical_address - offset_in_page;
        let mapped_size: usize = offset_in_page as usize + size;
        let virt_base: u64 = offset + phys_base_page;
        let virtual_start: u64 = virt_base + offset_in_page;
        if virtual_start == 0 {
            None
        } else {
            Some(
                PhysicalMapping {
                    physical_start: physical_address,
                    virtual_start,
                    region_length: size,
                    mapped_length: mapped_size,
                },
            )
        }
    }

    /// Gives a mapping back. The direct map stays as it is, so there is
    /// nothing to do.
    pub fn unmap_physical_region(&self, region: &PhysicalMapping) {
    }
}

/// Maps the `num_pages` frames from the one that holds `phys_addr` into fresh
/// pages of the kernel window, present and writable, and returns the address
/// of the first page. The pages are granted when the window has room and
/// the page tables take every mapping.
pub fn map_physical<M: Mapper>(pages: &mut PageAllocator<M>, phys_addr: u64, num_pages: usize) -> (r:
    Result<u64, PageAllocError>)
    requires
        old(pages).wf(),
        phys_addr + 4096 * num_pages <= 0x10_0000_0000_0000,
    ensures
        final(pages).wf(),
        old(pages).cursor() + 4096 * num_pages > old(pages).end() <==> r == Err::<u64, PageAllocError>(
            PageAllocError::VirtualExhausted,
        ),
        match r {
            Ok(addr) => addr == old(pages).cursor() && final(pages).lent_from(
                old(pages),
                phys_addr,
                num_pages as nat,
            ) && final(pages).page_flags() == old(pages).page_flags() + Seq::new(
                num_pages as nat,
                |i: int| PageFlags::present_writable(),
            ),
            Err(e) => e != PageAllocError::FrameExhausted && final(pages).same_as(old(pages)),
        },
        final(pages).asked_to_lend(old(pages), phys_addr, num_pages as nat, 3, r is Ok),
        r matches Err(PageAllocError::MapFailed(e)) ==> final(pages).refused(old(pages), e),
{
    pages.map_existing(phys_addr, num_pages, PageFlags::read_write())
}

} // verus!
