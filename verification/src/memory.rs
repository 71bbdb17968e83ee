//! Physical frames: the regions that firmware reports and the bitmap that
//! records which frames are taken.

use crate::bitmap::{bit_get, bit_len, bit_set, bit_wrap, bits_of, Bitmap};
use crate::frame_bounds::{apart, lemma_free_frames_bounds, page_aligned, usable_bytes};
use vstd::prelude::*;

verus! {

/// Size of a frame and of a page, in bytes.
pub const PAGE_SIZE: u64 = 4096;

/// What a region of physical memory is used for.
#[derive(Clone, Copy, Debug, PartialEq, Eq, Structural)]
pub enum MemoryRegionKind {
    /// Free for the kernel to use.
    Usable,
    /// Taken by the boot loader.
    Bootloader,
    /// A firmware-specific kind reported by UEFI.
    UnknownUefi(u32),
    /// A firmware-specific kind reported by the BIOS.
    UnknownBios(u32),
}

/// A half-open range `[start, end)` of physical addresses and its kind.
#[derive(Clone, Copy, Debug)]
pub struct MemoryRegion {
    pub start: u64,
    pub end: u64,
    pub kind: MemoryRegionKind,
}

impl MemoryRegion {
    /// Whether the kernel may place frames in this region.
    pub open spec fn usable(self) -> bool {
        self.kind == MemoryRegionKind::Usable
    }

    /// Whether the kernel may place frames in this region.
    pub fn is_usable(&self) -> (b: bool)
        ensures
            b == self.usable(),
    {
        self.kind == MemoryRegionKind::Usable
    }
}

/// Two half-open ranges share an address. For an empty or inverted range the
/// comparison is taken as written.
pub open spec fn ranges_overlap(a_start: int, a_end: int, b_start: int, b_end: int) -> bool {
    a_start < b_end && a_end > b_start
}

/// Whether `[a_start, a_end)` and `[b_start, b_end)` share an address.
pub fn ranges_intersect(a_start: u64, a_end: u64, b_start: u64, b_end: u64) -> (b: bool)
    ensures
        b == ranges_overlap(a_start as int, a_end as int, b_start as int, b_end as int),
{
    a_start < b_end && a_end > b_start
}

/// The address at which the direct map shows physical address `phys`.
pub fn phys_to_virt(phys: u64, offset: u64) -> (virt: u64)
    requires
        phys + offset <= u64::MAX,
    ensures
        virt == phys + offset,
{
    phys + offset
}

/// The largest end address among the usable regions, 0 where there is none.
pub open spec fn max_usable_end(regions: Seq<MemoryRegion>) -> int
    decreases regions.len(),
{
    if regions.len() == 0 {
        0
    } else {
        let rest = max_usable_end(regions.drop_last());
        let last = regions.last();
        if last.usable() && last.end > rest {
            last.end as int
        } else {
            rest
        }
    }
}

/// Number of frames that the bitmap covers: enough to reach the end of the
/// highest usable region.
pub open spec fn frames_covered(regions: Seq<MemoryRegion>) -> int {
    (max_usable_end(regions) + 4095) / 4096
}

/// Number of bytes that hold one bit per covered frame.
pub open spec fn bitmap_bytes(regions: Seq<MemoryRegion>) -> int {
    (frames_covered(regions) + 7) / 8
}

/// Some region that is not usable overlaps `[lo, hi)`.
pub open spec fn touches_reserved(regions: Seq<MemoryRegion>, lo: int, hi: int) -> bool {
    exists|j: int|
        0 <= j < regions.len() && !(#[trigger] regions[j]).usable() && ranges_overlap(
            lo,
            hi,
            regions[j].start as int,
            regions[j].end as int,
        )
}

/// Region `i` can take the bitmap: it is usable, large enough, and no region
/// that is not usable overlaps it.
pub open spec fn can_hold_bitmap(regions: Seq<MemoryRegion>, i: int) -> bool {
    &&& 0 <= i < regions.len()
    &&& regions[i].usable()
    &&& regions[i].end - regions[i].start >= bitmap_bytes(regions)
    &&& !touches_reserved(regions, regions[i].start as int, regions[i].end as int)
}

/// Region `i` is the first that can take the bitmap.
pub open spec fn holds_bitmap(regions: Seq<MemoryRegion>, i: int) -> bool {
    &&& can_hold_bitmap(regions, i)
    &&& forall|j: int| 0 <= j < i ==> !can_hold_bitmap(regions, j)
}

/// Frame `f` lies wholly inside a usable region.
pub open spec fn inside_usable(regions: Seq<MemoryRegion>, f: int) -> bool {
    exists|i: int|
        0 <= i < regions.len() && (#[trigger] regions[i]).usable() && regions[i].start <= f * 4096
            && (f + 1) * 4096 <= regions[i].end
}

/// Frame `f` is free once the allocator has been set up with its bitmap in
/// the `bytes` bytes at `base`: it lies wholly inside a usable region, and
/// neither the bitmap nor a region that is not usable overlaps it.
pub open spec fn free_at_start(regions: Seq<MemoryRegion>, base: int, bytes: int, f: int) -> bool {
    &&& inside_usable(regions, f)
    &&& !ranges_overlap(f * 4096, (f + 1) * 4096, base, base + bytes)
    &&& !touches_reserved(regions, f * 4096, (f + 1) * 4096)
}

/// Number of clear bits, which stand for free frames.
pub open spec fn count_free(bits: Seq<bool>) -> nat
    decreases bits.len(),
{
    if bits.len() == 0 {
        0
    } else {
        count_free(bits.drop_last()) + if bits.last() {
            0nat
        } else {
            1nat
        }
    }
}


/// Region `k` alone makes frame `f` free: `f` lies wholly inside it,
/// the region is usable, and neither the bitmap nor a region that is not
/// usable overlaps the frame.
pub open spec fn freed_by(
    regions: Seq<MemoryRegion>,
    base: int,
    bytes: int,
    k: int,
    f: int,
) -> bool {
    &&& 0 <= k < regions.len()
    &&& regions[k].usable()
    &&& regions[k].start <= f * 4096
    &&& (f + 1) * 4096 <= regions[k].end
    &&& !ranges_overlap(f * 4096, (f + 1) * 4096, base, base + bytes)
    &&& !touches_reserved(regions, f * 4096, (f + 1) * 4096)
}

/// One of the first `n` regions makes frame `f` free.
pub open spec fn freed_before(
    regions: Seq<MemoryRegion>,
    base: int,
    bytes: int,
    n: int,
    f: int,
) -> bool {
    exists|k: int| 0 <= k < n && #[trigger] freed_by(regions, base, bytes, k, f)
}

/// Every usable region ends at or before `max_usable_end`, and a positive
/// maximum is the end of a usable region.
pub proof fn lemma_max_usable_end(regions: Seq<MemoryRegion>)
    ensures
        0 <= max_usable_end(regions) <= u64::MAX,
        forall|i: int|
            0 <= i < regions.len() && (#[trigger] regions[i]).usable() ==> regions[i].end
                <= max_usable_end(regions),
        max_usable_end(regions) > 0 ==> exists|i: int|
            0 <= i < regions.len() && (#[trigger] regions[i]).usable() && regions[i].end
                == max_usable_end(regions),
    decreases regions.len(),
{
    if regions.len() > 0 {
        let front = regions.drop_last();
        lemma_max_usable_end(front);
        assert forall|i: int| 0 <= i < regions.len() && (#[trigger] regions[i]).usable() implies regions[i].end
            <= max_usable_end(regions) by {
            if i < front.len() {
                assert(front[i] == regions[i]);
            }
        }
        if max_usable_end(regions) > 0 {
            if max_usable_end(regions) == max_usable_end(front) {
                let i = choose|i: int|
                    0 <= i < front.len() && (#[trigger] front[i]).usable() && front[i].end
                        == max_usable_end(front);
                assert(regions[i] == front[i]);
            } else {
                assert(regions[regions.len() - 1].usable());
            }
        }
    }
}

/// A frame is free at the start exactly if one of the regions makes it free.
pub proof fn lemma_freed_before_all(regions: Seq<MemoryRegion>, base: int, bytes: int, f: int)
    ensures
        freed_before(regions, base, bytes, regions.len() as int, f) == free_at_start(
            regions,
            base,
            bytes,
            f,
        ),
{
    if free_at_start(regions, base, bytes, f) {
        let i = choose|i: int|
            0 <= i < regions.len() && (#[trigger] regions[i]).usable() && regions[i].start <= f
                * 4096 && (f + 1) * 4096 <= regions[i].end;
        assert(freed_by(regions, base, bytes, i, f));
    }
    if freed_before(regions, base, bytes, regions.len() as int, f) {
        let k = choose|k: int|
            0 <= k < regions.len() && #[trigger] freed_by(regions, base, bytes, k, f);
        assert(regions[k].usable());
    }
}

/// The largest end address among the usable regions.
pub fn highest_usable_end(regions: &[MemoryRegion]) -> (end: u64)
    ensures
        end == max_usable_end(regions@),
{
    let mut max_addr: u64 = 0;
    let mut i: usize = 0;
    while i < regions.len()
        invariant
            i <= regions.len(),
            max_addr == max_usable_end(regions@.take(i as int)),
        decreases regions.len() - i,
    {
        proof {
            assert(regions@.take(i + 1).drop_last() =~= regions@.take(i as int));
        }
        if regions[i].is_usable() && regions[i].end > max_addr {
            max_addr = regions[i].end;
        }
        i += 1;
    }
    proof {
        assert(regions@.take(i as int) =~= regions@);
    }
    max_addr
}

/// Number of bytes that the bitmap for `regions` takes: one bit for each
/// frame up to the end of the highest usable region.
pub fn bitmap_bytes_needed(regions: &[MemoryRegion]) -> (bytes: u64)
    ensures
        bytes == bitmap_bytes(regions@),
{
    let max_addr = highest_usable_end(regions);
    let max_frame: u64 = max_addr / PAGE_SIZE + if max_addr % PAGE_SIZE != 0 {
        1u64
    } else {
        0u64
    };
    max_frame / 8 + if max_frame % 8 != 0 {
        1u64
    } else {
        0u64
    }
}

/// Whether a region that is not usable overlaps `[lo, hi)`.
pub fn overlaps_reserved(regions: &[MemoryRegion], lo: u64, hi: u64) -> (b: bool)
    ensures
        b == touches_reserved(regions@, lo as int, hi as int),
{
    let mut j: usize = 0;
    while j < regions.len()
        invariant
            j <= regions.len(),
            forall|k: int|
                0 <= k < j ==> !(!(#[trigger] regions@[k]).usable() && ranges_overlap(
                    lo as int,
                    hi as int,
                    regions@[k].start as int,
                    regions@[k].end as int,
                )),
        decreases regions.len() - j,
    {
        if !regions[j].is_usable() && ranges_intersect(lo, hi, regions[j].start, regions[j].end) {
            return true;
        }
        j += 1;
    }
    false
}

/// The first region that can take a bitmap of `bytes` bytes.
pub fn find_bitmap_region(regions: &[MemoryRegion], bytes: u64) -> (found: Option<usize>)
    requires
        bytes == bitmap_bytes(regions@),
    ensures
        match found {
            Some(i) => holds_bitmap(regions@, i as int),
            None => forall|i: int| !can_hold_bitmap(regions@, i),
        },
{
    let mut i: usize = 0;
    while i < regions.len()
        invariant
            i <= regions.len(),
            bytes == bitmap_bytes(regions@),
            forall|j: int| 0 <= j < i ==> !can_hold_bitmap(regions@, j),
        decreases regions.len() - i,
    {
        let region = &regions[i];
        if region.is_usable() && region.end >= region.start && region.end - region.start >= bytes
            && !overlaps_reserved(regions, region.start, region.end) {
            return Some(i);
        }
        i += 1;
    }
    None
}

/// Writing a bit changes the number of clear bits by what the old and the
/// new bit say.
pub proof fn lemma_count_free_update(bits: Seq<bool>, i: int, value: bool)
    requires
        0 <= i < bits.len(),
    ensures
        count_free(bits.update(i, value)) + (if bits[i] { 0int } else { 1int }) == count_free(bits)
            + (if value { 0int } else { 1int }),
    decreases bits.len(),
{
    let after = bits.update(i, value);
    if i == bits.len() - 1 {
        assert(after.drop_last() =~= bits.drop_last());
    } else {
        lemma_count_free_update(bits.drop_last(), i, value);
        assert(after.drop_last() =~= bits.drop_last().update(i, value));
    }
}

/// There are at most as many clear bits as bits, and none where all are set.
pub proof fn lemma_count_free_bounds(bits: Seq<bool>)
    ensures
        count_free(bits) <= bits.len(),
        (forall|i: int| 0 <= i < bits.len() ==> bits[i]) <==> count_free(bits) == 0,
    decreases bits.len(),
{
    if bits.len() > 0 {
        let front = bits.drop_last();
        lemma_count_free_bounds(front);
        if count_free(bits) == 0 {
            assert forall|i: int| 0 <= i < bits.len() implies bits[i] by {
                if i < front.len() {
                    assert(front[i] == bits[i]);
                }
            }
        }
        if forall|i: int| 0 <= i < bits.len() ==> bits[i] {
            assert forall|i: int| 0 <= i < front.len() implies front[i] by {
                assert(front[i] == bits[i]);
            }
            assert(bits.last());
        }
    }
}

/// Allocator of physical frames that keeps one bit per frame: a set bit
/// stands for a frame that is taken or that may not be handed out, a clear
/// bit for a free frame.
pub struct BitmapFrameAllocator {
    frame_count: usize,
    bitmap_phys_addr: u64,
    bitmap_virt_addr: u64,
    bitmap: Bitmap,
    usable: Ghost<Seq<bool>>,
}

impl BitmapFrameAllocator {
    /// The bitmap, one entry per bit: `true` for a frame that is not free.
    pub closed spec fn bits(&self) -> Seq<bool> {
        bits_of(self.bitmap)
    }

    /// Number of frames that the bitmap covers.
    pub closed spec fn frames(&self) -> nat {
        self.frame_count as nat
    }

    /// Physical address of the bitmap's storage.
    pub closed spec fn bitmap_base(&self) -> u64 {
        self.bitmap_phys_addr
    }

    /// Address of the bitmap's storage in the direct map.
    pub closed spec fn bitmap_mapped_at(&self) -> u64 {
        self.bitmap_virt_addr
    }

    /// For each frame, whether it was free when the allocator was set up.
    /// Only these frames are ever handed out.
    pub closed spec fn usable_frames(&self) -> Seq<bool> {
        self.usable@
    }

    /// Frame `f` was free when the allocator was set up: it lies wholly
    /// inside usable memory, clear of the bitmap's own storage.
    pub open spec fn may_hand_out(&self, f: int) -> bool {
        0 <= f < self.usable_frames().len() && self.usable_frames()[f]
    }

    /// The bitmap has a whole number of bytes, enough for the covered frames,
    /// every covered frame has an address, and a bit is clear only for a
    /// covered frame that was free when the allocator was set up.
    pub open spec fn wf(&self) -> bool {
        &&& self.bits().len() == (self.frames() + 7) / 8 * 8
        &&& self.bits().len() <= usize::MAX / 8
        &&& (self.frames() - 1) * 4096 <= u64::MAX
        &&& forall|i: int| self.frames() <= i < self.bits().len() ==> self.bits()[i]
        &&& forall|f: int| #[trigger] self.may_hand_out(f) ==> f < self.frames()
        &&& forall|f: int| #[trigger] self.is_free(f) ==> self.may_hand_out(f)
    }

    /// Frame `f` is free.
    pub open spec fn is_free(&self, f: int) -> bool {
        0 <= f < self.bits().len() && !self.bits()[f]
    }

    /// Number of free frames.
    pub open spec fn free_count(&self) -> nat {
        count_free(self.bits())
    }

    /// Builds the allocator for the memory that `memory_map` describes. The
    /// bitmap goes to the start of the first usable region that can hold it;
    /// a frame starts out free exactly if it lies wholly inside a usable
    /// region and neither the bitmap nor a region that is not usable overlaps
    /// it. Without a region for the bitmap there is no allocator.
    ///
    /// The bits are kept in `storage`, of which every bit is written. The
    /// caller hands in the bytes that lie at the start of that region, which
    /// `find_bitmap_region` names; the allocator keeps those frames taken.
    ///
    /// No more frames are free than the usable bytes would fill. Where the
    /// usable regions lie at page boundaries and apart from every other
    /// region, the free frames are at least those that the usable bytes
    /// fill, less the frames that the bitmap's bytes fill.
    pub fn init(memory_map: &[MemoryRegion], offset: u64, storage: &'static mut [u8]) -> (made: Option<
        Self,
    >)
        requires
            old(storage)@.len() == bitmap_bytes(memory_map@),
            bitmap_bytes(memory_map@) * 8 <= usize::MAX / 8,
            forall|i: int|
                holds_bitmap(memory_map@, i) ==> memory_map@[i].start + offset <= u64::MAX,
        ensures
            match made {
                Some(a) => {
                    &&& a.wf()
                    &&& a.frames() == frames_covered(memory_map@)
                    &&& exists|i: int|
                        holds_bitmap(memory_map@, i) && a.bitmap_base() == memory_map@[i].start
                    &&& a.bitmap_mapped_at() == a.bitmap_base() + offset
                    &&& forall|f: int|
                        0 <= f < a.bits().len() ==> a.bits()[f] == !free_at_start(
                            memory_map@,
                            a.bitmap_base() as int,
                            bitmap_bytes(memory_map@),
                            f,
                        )
                    &&& forall|f: int| #[trigger] a.may_hand_out(f) == a.is_free(f)
                    &&& a.free_count() <= usable_bytes(memory_map@) / 4096
                    &&& page_aligned(memory_map@) && apart(memory_map@) ==> a.free_count()
                        >= usable_bytes(memory_map@) / 4096 - (bitmap_bytes(memory_map@) + 4095)
                        / 4096
                },
                None => forall|i: int| !can_hold_bitmap(memory_map@, i),
            },
    {
        let max_addr = highest_usable_end(memory_map);
        let max_frame: u64 = max_addr / PAGE_SIZE + if max_addr % PAGE_SIZE != 0 {
            1u64
        } else {
            0u64
        };
        let bytes_needed: u64 = max_frame / 8 + if max_frame % 8 != 0 {
            1u64
        } else {
            0u64
        };
        assert(max_frame == frames_covered(memory_map@));
        assert(bytes_needed == bitmap_bytes(memory_map@));
        let region_index = match find_bitmap_region(memory_map, bytes_needed) {
            Some(i) => i,
            None => {
                return None;
            },
        };
        let bitmap_phys_addr = memory_map[region_index].start;
        let bitmap_virt_addr = phys_to_virt(bitmap_phys_addr, offset);
        let bit_count: usize = (bytes_needed * 8) as usize;
        let frame_count: usize = max_frame as usize;
        let mut bitmap = bit_wrap(storage);
        let mut filled: usize = 0;
        while filled < bit_count
            invariant
                filled <= bit_count,
                bits_of(bitmap).len() == bit_count,
                forall|g: int| 0 <= g < filled ==> bits_of(bitmap)[g],
            decreases bit_count - filled,
        {
            bit_set(&mut bitmap, filled, true);
            filled += 1;
        }
        let bitmap_end: u64 = bitmap_phys_addr + bytes_needed;
        let ghost base = bitmap_phys_addr as int;
        let ghost bytes = bytes_needed as int;

        let mut i: usize = 0;
        while i < memory_map.len()
            invariant
                i <= memory_map.len(),
                bits_of(bitmap).len() == bit_count,
                bit_count == bytes * 8,
                bytes == bitmap_bytes(memory_map@),
                max_frame == frames_covered(memory_map@),
                base == bitmap_phys_addr,
                bitmap_end == base + bytes,
                forall|g: int|
                    0 <= g < bit_count ==> bits_of(bitmap)[g] == !freed_before(
                        memory_map@,
                        base,
                        bytes,
                        i as int,
                        g,
                    ),
            decreases memory_map.len() - i,
        {
            let region = &memory_map[i];
            if region.is_usable() {
                let first: u64 = region.start / PAGE_SIZE + if region.start % PAGE_SIZE != 0 {
                    1u64
                } else {
                    0u64
                };
                let limit: u64 = region.end / PAGE_SIZE;
                proof {
                    lemma_max_usable_end(memory_map@);
                    assert(memory_map@[i as int].usable());
                    assert(limit <= max_frame);
                }
                let mut frame: u64 = first;
                while frame < limit
                    invariant
                        i < memory_map.len(),
                        region == memory_map@[i as int],
                        region.usable(),
                        first * 4096 >= region.start,
                        (first - 1) * 4096 < region.start,
                        limit == region.end / 4096,
                        limit <= max_frame,
                        first <= frame,
                        bits_of(bitmap).len() == bit_count,
                        bit_count == bytes * 8,
                        bytes == bitmap_bytes(memory_map@),
                        max_frame == frames_covered(memory_map@),
                        base == bitmap_phys_addr,
                        bitmap_end == base + bytes,
                        forall|g: int|
                            0 <= g < bit_count ==> bits_of(bitmap)[g] == !(freed_before(
                                memory_map@,
                                base,
                                bytes,
                                i as int,
                                g,
                            ) || (g < frame && freed_by(memory_map@, base, bytes, i as int, g))),
                    decreases limit - frame,
                {
                    let frame_addr: u64 = frame * PAGE_SIZE;
                    let frame_end: u64 = frame_addr + PAGE_SIZE;
                    if !ranges_intersect(frame_addr, frame_end, bitmap_phys_addr, bitmap_end)
                        && !overlaps_reserved(memory_map, frame_addr, frame_end) {
                        assert(freed_by(memory_map@, base, bytes, i as int, frame as int));
                        bit_set(&mut bitmap, frame as usize, false);
                    }
                    frame += 1;
                }
                proof {
                    assert forall|g: int| 0 <= g < bit_count implies bits_of(bitmap)[g]
                        == !freed_before(memory_map@, base, bytes, i + 1, g) by {
                        if freed_before(memory_map@, base, bytes, i + 1, g) {
                            let k = choose|k: int|
                                0 <= k < i + 1 && #[trigger] freed_by(
                                    memory_map@,
                                    base,
                                    bytes,
                                    k,
                                    g,
                                );
                            if k < i {
                                assert(freed_before(memory_map@, base, bytes, i as int, g));
                            } else {
                                assert(g < limit);
                            }
                        }
                        if freed_before(memory_map@, base, bytes, i as int, g) {
                            let k = choose|k: int|
                                0 <= k < i && #[trigger] freed_by(memory_map@, base, bytes, k, g);
                            assert(freed_by(memory_map@, base, bytes, k, g));
                        }
                    }
                }
            } else {
                proof {
                    assert forall|g: int| 0 <= g < bit_count implies bits_of(bitmap)[g]
                        == !freed_before(memory_map@, base, bytes, i + 1, g) by {
                        if freed_before(memory_map@, base, bytes, i + 1, g) {
                            let k = choose|k: int|
                                0 <= k < i + 1 && #[trigger] freed_by(
                                    memory_map@,
                                    base,
                                    bytes,
                                    k,
                                    g,
                                );
                            assert(k < i);
                            assert(freed_before(memory_map@, base, bytes, i as int, g));
                        }
                        if freed_before(memory_map@, base, bytes, i as int, g) {
                            let k = choose|k: int|
                                0 <= k < i && #[trigger] freed_by(memory_map@, base, bytes, k, g);
                            assert(freed_by(memory_map@, base, bytes, k, g));
                        }
                    }
                }
            }
            i += 1;
        }
        let ghost usable = Seq::new(bits_of(bitmap).len(), |f: int| !bits_of(bitmap)[f]);
        let made = BitmapFrameAllocator {
            frame_count,
            bitmap_phys_addr,
            bitmap_virt_addr,
            bitmap,
            usable: Ghost(usable),
        };
        proof {
            assert forall|f: int| 0 <= f < made.bits().len() implies made.bits()[f]
                == !free_at_start(memory_map@, base, bytes, f) by {
                lemma_freed_before_all(memory_map@, base, bytes, f);
            }
            assert forall|f: int| made.frames() <= f < made.bits().len() implies made.bits()[f] by {
                lemma_freed_before_all(memory_map@, base, bytes, f);
                lemma_max_usable_end(memory_map@);
                if inside_usable(memory_map@, f) {
                    let k = choose|k: int|
                        0 <= k < memory_map@.len() && (#[trigger] memory_map@[k]).usable()
                            && memory_map@[k].start <= f * 4096 && (f + 1) * 4096
                            <= memory_map@[k].end;
                    assert(memory_map@[k].end <= max_usable_end(memory_map@));
                }
            }
            assert(holds_bitmap(memory_map@, region_index as int));
            lemma_max_usable_end(memory_map@);
            lemma_free_frames_bounds(memory_map@, made.bits(), base, bytes);
            assert(memory_map@[region_index as int].usable());
        }
        Some(made)
    }

    /// Number of frames that the bitmap covers.
    pub fn frame_count(&self) -> (n: usize)
        ensures
            n == self.frames(),
    {
        self.frame_count
    }

    /// Physical address at which the bitmap's storage begins.
    pub fn bitmap_phys_addr(&self) -> (addr: u64)
        ensures
            addr == self.bitmap_base(),
    {
        self.bitmap_phys_addr
    }

    /// Address of the bitmap's storage in the direct map.
    pub fn bitmap_virt_addr(&self) -> (addr: u64)
        ensures
            addr == self.bitmap_mapped_at(),
    {
        self.bitmap_virt_addr
    }

    /// Index of the frame that starts at or contains `frame`, where the
    /// bitmap covers it.
    pub fn frame_as_index(&self, frame: u64) -> (index: Option<usize>)
        ensures
            index == if frame / 4096 < self.frames() {
                Some((frame / 4096) as usize)
            } else {
                None
            },
    {
        let index: u64 = frame / PAGE_SIZE;
        if index >= self.frame_count as u64 {
            None
        } else {
            Some(index as usize)
        }
    }

    /// Start address of the frame with the given index.
    pub fn index_as_frame(&self, index: usize) -> (frame: u64)
        requires
            index * 4096 <= u64::MAX,
        ensures
            frame == index * 4096,
    {
        (index as u64) * PAGE_SIZE
    }

    /// Whether the frame with the given index is free.
    pub fn is_frame_free(&self, index: usize) -> (free: bool)
        ensures
            free == self.is_free(index as int),
    {
        index < bit_len(&self.bitmap) && !bit_get(&self.bitmap, index)
    }

    /// Number of free frames.
    pub fn free_frames(&self) -> (n: usize)
        ensures
            n == self.free_count(),
    {
        let len = bit_len(&self.bitmap);
        let mut free: usize = 0;
        let mut i: usize = 0;
        while i < len
            invariant
                i <= len,
                len == self.bits().len(),
                free == count_free(self.bits().take(i as int)),
                free <= i,
            decreases len - i,
        {
            proof {
                assert(self.bits().take(i + 1).drop_last() =~= self.bits().take(i as int));
            }
            if !bit_get(&self.bitmap, i) {
                free += 1;
            }
            i += 1;
        }
        proof {
            assert(self.bits().take(i as int) =~= self.bits());
        }
        free
    }

    /// Takes the free frame with the lowest index and returns its start
    /// address; `None`, with nothing changed, where no frame is free.
    pub fn allocate_frame(&mut self) -> (frame: Option<u64>)
        requires
            old(self).wf(),
        ensures
            final(self).wf(),
            final(self).frames() == old(self).frames(),
            final(self).bitmap_base() == old(self).bitmap_base(),
            final(self).bitmap_mapped_at() == old(self).bitmap_mapped_at(),
            final(self).usable_frames() == old(self).usable_frames(),
            match frame {
                Some(addr) => {
                    &&& addr % 4096 == 0
                    &&& addr / 4096 < old(self).frames()
                    &&& old(self).is_free(addr as int / 4096)
                    &&& old(self).may_hand_out(addr as int / 4096)
                    &&& forall|j: int| 0 <= j < addr / 4096 ==> !old(self).is_free(j)
                    &&& final(self).bits() == old(self).bits().update(addr as int / 4096, true)
                    &&& final(self).free_count() + 1 == old(self).free_count()
                },
                None => {
                    &&& forall|j: int| !old(self).is_free(j)
                    &&& old(self).free_count() == 0
                    &&& final(self).bits() == old(self).bits()
                },
            },
    {
        let len = bit_len(&self.bitmap);
        let mut i: usize = 0;
        while i < len
            invariant
                i <= len,
                len == self.bits().len(),
                *self == *old(self),
                self.wf(),
                forall|j: int| 0 <= j < i ==> self.bits()[j],
            decreases len - i,
        {
            if !bit_get(&self.bitmap, i) {
                proof {
                    lemma_count_free_update(self.bits(), i as int, true);
                    assert(old(self).is_free(i as int));
                }
                bit_set(&mut self.bitmap, i, true);
                proof {
                    assert forall|f: int| #[trigger] self.is_free(f) implies self.may_hand_out(f) by {
                        assert(old(self).is_free(f));
                    }
                    assert forall|f: int| #[trigger] self.may_hand_out(f) implies f < self.frames() by {
                        assert(old(self).may_hand_out(f));
                    }
                }
                let frame = self.index_as_frame(i);
                return Some(frame);
            }
            i += 1;
        }
        proof {
            lemma_count_free_bounds(self.bits());
        }
        None
    }

    /// Marks the frame that contains `frame` as free. The frame is one that
    /// was free when the allocator was set up.
    pub fn deallocate_frame(&mut self, frame: u64)
        requires
            old(self).wf(),
            old(self).may_hand_out(frame as int / 4096),
        ensures
            final(self).wf(),
            final(self).frames() == old(self).frames(),
            final(self).bitmap_base() == old(self).bitmap_base(),
            final(self).bitmap_mapped_at() == old(self).bitmap_mapped_at(),
            final(self).usable_frames() == old(self).usable_frames(),
            final(self).bits() == old(self).bits().update(frame as int / 4096, false),
            final(self).free_count() == old(self).free_count() + if old(self).is_free(
                frame as int / 4096,
            ) {
                0int
            } else {
                1int
            },
    {
        let index: usize = (frame / PAGE_SIZE) as usize;
        proof {
            lemma_count_free_update(self.bits(), index as int, false);
        }
        bit_set(&mut self.bitmap, index, false);
        proof {
            assert forall|f: int| #[trigger] self.is_free(f) implies self.may_hand_out(f) by {
                if f != index {
                    assert(old(self).is_free(f));
                }
            }
            assert forall|f: int| #[trigger] self.may_hand_out(f) implies f < self.frames() by {
                assert(old(self).may_hand_out(f));
            }
        }
    }
}

/// As long as the allocator hands out only frames that were free when it
/// was set up for `regions`, a frame that is free lies wholly inside a
/// usable region, and neither the bitmap's storage nor a region that is not
/// usable overlaps it.
pub proof fn lemma_free_frame_is_usable(
    allocator: &BitmapFrameAllocator,
    regions: Seq<MemoryRegion>,
    f: int,
)
    requires
        allocator.wf(),
        forall|g: int| #[trigger]
            allocator.may_hand_out(g) ==> free_at_start(
                regions,
                allocator.bitmap_base() as int,
                bitmap_bytes(regions),
                g,
            ),
        allocator.is_free(f),
    ensures
        inside_usable(regions, f),
        !ranges_overlap(
            f * 4096,
            (f + 1) * 4096,
            allocator.bitmap_base() as int,
            allocator.bitmap_base() + bitmap_bytes(regions),
        ),
        !touches_reserved(regions, f * 4096, (f + 1) * 4096),
{
    assert(allocator.may_hand_out(f));
}

} // verus!
