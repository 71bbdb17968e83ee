//! How many frames are free once the frame allocator is set up, measured
//! against the memory that firmware reports as usable.

use crate::memory::{
    bitmap_bytes, count_free, frames_covered, free_at_start, inside_usable, lemma_max_usable_end,
    max_usable_end, ranges_overlap, touches_reserved, BitmapFrameAllocator, MemoryRegion,
};
use vstd::prelude::*;

verus! {

/// Number of integers `f` with `0 <= f < n` and `p(f)`.
pub open spec fn count_where(n: nat, p: spec_fn(int) -> bool) -> nat
    decreases n,
{
    if n == 0 {
        0
    } else {
        count_where((n - 1) as nat, p) + if p(n - 1) {
            1nat
        } else {
            0nat
        }
    }
}

/// Where `p` implies `q`, no more integers meet `p` than `q`.
pub proof fn lemma_count_implied(n: nat, p: spec_fn(int) -> bool, q: spec_fn(int) -> bool)
    requires
        forall|f: int| 0 <= f < n && #[trigger] p(f) ==> q(f),
    ensures
        count_where(n, p) <= count_where(n, q),
    decreases n,
{
    if n > 0 {
        lemma_count_implied((n - 1) as nat, p, q);
    }
}

/// Where `r` implies `p` or `q`, at most as many integers meet `r` as meet
/// `p` and `q` together.
pub proof fn lemma_count_either(
    n: nat,
    r: spec_fn(int) -> bool,
    p: spec_fn(int) -> bool,
    q: spec_fn(int) -> bool,
)
    requires
        forall|f: int| 0 <= f < n && #[trigger] r(f) ==> p(f) || q(f),
    ensures
        count_where(n, r) <= count_where(n, p) + count_where(n, q),
    decreases n,
{
    if n > 0 {
        lemma_count_either((n - 1) as nat, r, p, q);
    }
}

/// Where `p` and `q` exclude each other and each implies `r`, at least as
/// many integers meet `r` as meet `p` and `q` together.
pub proof fn lemma_count_both(
    n: nat,
    r: spec_fn(int) -> bool,
    p: spec_fn(int) -> bool,
    q: spec_fn(int) -> bool,
)
    requires
        forall|f: int| 0 <= f < n && #[trigger] p(f) ==> r(f) && !q(f),
        forall|f: int| 0 <= f < n && #[trigger] q(f) ==> r(f),
    ensures
        count_where(n, r) >= count_where(n, p) + count_where(n, q),
    decreases n,
{
    if n > 0 {
        lemma_count_both((n - 1) as nat, r, p, q);
    }
}

/// Where `r` holds of what meets `p` and not `q`, at least as many integers
/// meet `r` as meet `p`, less those that meet `q`.
pub proof fn lemma_count_without(
    n: nat,
    r: spec_fn(int) -> bool,
    p: spec_fn(int) -> bool,
    q: spec_fn(int) -> bool,
)
    requires
        forall|f: int| 0 <= f < n && #[trigger] p(f) && !q(f) ==> r(f),
    ensures
        count_where(n, r) + count_where(n, q) >= count_where(n, p),
    decreases n,
{
    if n > 0 {
        lemma_count_without((n - 1) as nat, r, p, q);
    }
}

/// Where `p` holds only between `lo` and `hi`, at most `hi - lo` integers
/// meet it.
pub proof fn lemma_count_within(n: nat, p: spec_fn(int) -> bool, lo: int, hi: int)
    requires
        lo <= hi,
        forall|f: int| 0 <= f < n && #[trigger] p(f) ==> lo <= f < hi,
    ensures
        count_where(n, p) <= hi - lo,
    decreases n,
{
    if n > 0 {
        if p(n - 1) {
            lemma_count_within((n - 1) as nat, p, lo, n - 1);
        } else {
            lemma_count_within((n - 1) as nat, p, lo, hi);
        }
    }
}

/// Where `p` holds all the way from `lo` to `hi`, at least `hi - lo`
/// integers meet it.
pub proof fn lemma_count_throughout(n: nat, p: spec_fn(int) -> bool, lo: int, hi: int)
    requires
        0 <= lo <= hi <= n,
        forall|f: int| lo <= f < hi ==> #[trigger] p(f),
    ensures
        count_where(n, p) >= hi - lo,
    decreases n,
{
    if n > 0 {
        if hi == n && lo < hi {
            assert(p(n - 1));
            lemma_count_throughout((n - 1) as nat, p, lo, hi - 1);
        } else if hi == n {
        } else {
            lemma_count_throughout((n - 1) as nat, p, lo, hi);
        }
    }
}

/// The clear bits are the positions that are not set.
pub proof fn lemma_count_free_where(bits: Seq<bool>, p: spec_fn(int) -> bool)
    requires
        forall|f: int| 0 <= f < bits.len() ==> #[trigger] p(f) == !bits[f],
    ensures
        count_free(bits) == count_where(bits.len(), p),
    decreases bits.len(),
{
    if bits.len() > 0 {
        let front = bits.drop_last();
        assert forall|f: int| 0 <= f < front.len() implies #[trigger] p(f) == !front[f] by {
            assert(front[f] == bits[f]);
        }
        lemma_count_free_where(front, p);
    }
}

/// Frame `f` lies wholly inside the region.
pub open spec fn inside(region: MemoryRegion, f: int) -> bool {
    region.start <= f * 4096 && (f + 1) * 4096 <= region.end
}

/// Number of bytes in the usable regions.
pub open spec fn usable_bytes(regions: Seq<MemoryRegion>) -> int
    decreases regions.len(),
{
    if regions.len() == 0 {
        0
    } else {
        usable_bytes(regions.drop_last()) + if regions.last().usable() && regions.last().end
            >= regions.last().start {
            regions.last().end - regions.last().start
        } else {
            0
        }
    }
}

/// Sum over the usable regions of the number of frames that as many bytes
/// as the region has would fill.
pub open spec fn usable_frames(regions: Seq<MemoryRegion>) -> int
    decreases regions.len(),
{
    if regions.len() == 0 {
        0
    } else {
        usable_frames(regions.drop_last()) + if regions.last().usable() && regions.last().end
            >= regions.last().start {
            (regions.last().end - regions.last().start) / 4096
        } else {
            0
        }
    }
}

/// The usable regions start and end at page boundaries, and the start of
/// each is not behind its end.
pub open spec fn page_aligned(regions: Seq<MemoryRegion>) -> bool {
    forall|i: int|
        0 <= i < regions.len() && (#[trigger] regions[i]).usable() ==> regions[i].start % 4096 == 0
            && regions[i].end % 4096 == 0 && regions[i].start <= regions[i].end
}

/// No usable region overlaps another region.
pub open spec fn apart(regions: Seq<MemoryRegion>) -> bool {
    forall|i: int, j: int|
        0 <= i < regions.len() && 0 <= j < regions.len() && i != j && (#[trigger] regions[i]).usable()
            ==> !ranges_overlap(
            regions[i].start as int,
            regions[i].end as int,
            (#[trigger] regions[j]).start as int,
            regions[j].end as int,
        )
}

/// The frames that whole regions would fill are no more than the frames
/// that their bytes together would fill; for regions at page boundaries they
/// are as many.
pub proof fn lemma_usable_frames(regions: Seq<MemoryRegion>)
    ensures
        0 <= usable_frames(regions) <= usable_bytes(regions) / 4096,
        page_aligned(regions) ==> usable_frames(regions) * 4096 == usable_bytes(regions),
    decreases regions.len(),
{
    if regions.len() > 0 {
        let front = regions.drop_last();
        lemma_usable_frames(front);
        if page_aligned(regions) {
            assert forall|i: int| 0 <= i < front.len() && (#[trigger] front[i]).usable() implies front[i].start
                % 4096 == 0 && front[i].end % 4096 == 0 && front[i].start <= front[i].end by {
                assert(front[i] == regions[i]);
            }
            assert(regions[regions.len() - 1] == regions.last());
        }
    }
}

/// At most `usable_frames` of the first `n` frames lie wholly inside a
/// usable region.
pub proof fn lemma_inside_at_most(regions: Seq<MemoryRegion>, n: nat)
    ensures
        count_where(n, |f: int| inside_usable(regions, f)) <= usable_frames(regions),
    decreases regions.len(),
{
    let all = |f: int| inside_usable(regions, f);
    if regions.len() == 0 {
        lemma_count_within(n, all, 0, 0);
    } else {
        let front = regions.drop_last();
        let last = regions.last();
        let before = |f: int| inside_usable(front, f);
        let here = |f: int| last.usable() && inside(last, f);
        lemma_inside_at_most(front, n);
        assert forall|f: int| 0 <= f < n && #[trigger] all(f) implies before(f) || here(f) by {
            let i = choose|i: int|
                0 <= i < regions.len() && (#[trigger] regions[i]).usable() && regions[i].start <= f
                    * 4096 && (f + 1) * 4096 <= regions[i].end;
            if i < front.len() {
                assert(front[i] == regions[i]);
            }
        }
        lemma_count_either(n, all, before, here);
        if last.usable() && last.end >= last.start {
            let lo: int = (last.start + 4095) / 4096;
            let hi: int = last.end as int / 4096;
            if lo <= hi {
                lemma_count_within(n, here, lo, hi);
            } else {
                lemma_count_within(n, here, 0, 0);
            }
        } else {
            lemma_count_within(n, here, 0, 0);
        }
    }
}

/// Where the usable regions lie at page boundaries and apart from each
/// other, at least `usable_frames` of the first `n` frames lie wholly
/// inside one of them, provided that the `n` frames reach the end of every
/// usable region.
pub proof fn lemma_inside_at_least(regions: Seq<MemoryRegion>, whole: Seq<MemoryRegion>, n: nat)
    requires
        page_aligned(whole),
        apart(whole),
        regions.len() <= whole.len(),
        regions =~= whole.take(regions.len() as int),
        forall|i: int|
            0 <= i < whole.len() && (#[trigger] whole[i]).usable() ==> whole[i].end <= n * 4096,
    ensures
        count_where(n, |f: int| inside_usable(regions, f)) >= usable_frames(regions),
    decreases regions.len(),
{
    let all = |f: int| inside_usable(regions, f);
    if regions.len() == 0 {
    } else {
        let front = regions.drop_last();
        let last = regions.last();
        let k = regions.len() - 1;
        assert(last == whole[k]);
        let before = |f: int| inside_usable(front, f);
        let here = |f: int| last.usable() && inside(last, f);
        assert(front =~= whole.take(front.len() as int));
        lemma_inside_at_least(front, whole, n);
        assert forall|f: int| 0 <= f < n && #[trigger] before(f) implies all(f) && !here(f) by {
            let i = choose|i: int|
                0 <= i < front.len() && (#[trigger] front[i]).usable() && front[i].start <= f * 4096
                    && (f + 1) * 4096 <= front[i].end;
            assert(regions[i] == front[i]);
            assert(whole[i] == front[i]);
            if here(f) {
                assert(whole[i].usable() && whole[k].usable());
                assert(ranges_overlap(
                    whole[i].start as int,
                    whole[i].end as int,
                    whole[k].start as int,
                    whole[k].end as int,
                ));
            }
        }
        assert forall|f: int| 0 <= f < n && #[trigger] here(f) implies all(f) by {
            assert(regions[k].usable());
        }
        lemma_count_both(n, all, before, here);
        if last.usable() {
            let lo = last.start as int / 4096;
            let hi = last.end as int / 4096;
            assert(whole[k].usable());
            assert(hi <= n);
            assert forall|f: int| lo <= f < hi implies #[trigger] here(f) by {}
            lemma_count_throughout(n, here, lo, hi);
        }
    }
}

/// Once the allocator is set up, no more frames are free than the bytes of
/// the usable regions would fill. Where the usable regions lie at page
/// boundaries and apart from every other region, and the bitmap starts at
/// a page boundary, the free frames are at least those that the usable
/// bytes fill, less the frames that the bitmap's bytes fill.
pub proof fn lemma_free_frames_bounds(regions: Seq<MemoryRegion>, bits: Seq<bool>, base: int, bytes: int)
    requires
        0 <= bytes,
        max_usable_end(regions) <= bits.len() * 4096,
        forall|f: int|
            0 <= f < bits.len() ==> bits[f] == !free_at_start(regions, base, bytes, f),
    ensures
        count_free(bits) <= usable_bytes(regions) / 4096,
        page_aligned(regions) && apart(regions) && base % 4096 == 0 && base >= 0 ==> count_free(bits)
            >= usable_bytes(regions) / 4096 - (bytes + 4095) / 4096,
{
    let n = bits.len();
    let free = |f: int| free_at_start(regions, base, bytes, f);
    let all = |f: int| inside_usable(regions, f);
    let taken = |f: int| ranges_overlap(f * 4096, (f + 1) * 4096, base, base + bytes);
    lemma_count_free_where(bits, free);
    lemma_count_implied(n, free, all);
    lemma_inside_at_most(regions, n);
    lemma_usable_frames(regions);
    if page_aligned(regions) && apart(regions) && base % 4096 == 0 && base >= 0 {
        lemma_max_usable_end(regions);
        assert(regions =~= regions.take(regions.len() as int));
        lemma_inside_at_least(regions, regions, n);
        assert forall|f: int| 0 <= f < n && #[trigger] all(f) && !taken(f) implies free(f) by {
            let i = choose|i: int|
                0 <= i < regions.len() && (#[trigger] regions[i]).usable() && regions[i].start <= f
                    * 4096 && (f + 1) * 4096 <= regions[i].end;
            if touches_reserved(regions, f * 4096, (f + 1) * 4096) {
                let j = choose|j: int|
                    0 <= j < regions.len() && !(#[trigger] regions[j]).usable() && ranges_overlap(
                        f * 4096,
                        (f + 1) * 4096,
                        regions[j].start as int,
                        regions[j].end as int,
                    );
                assert(regions[i].usable());
                assert(ranges_overlap(
                    regions[i].start as int,
                    regions[i].end as int,
                    regions[j].start as int,
                    regions[j].end as int,
                ));
            }
        }
        lemma_count_without(n, free, all, taken);
        let lo = base / 4096;
        let hi = lo + (bytes + 4095) / 4096;
        lemma_count_within(n, taken, lo, hi);
    }
}

/// For an allocator that was set up for `regions`, whatever they are: no
/// more frames are free than the usable bytes would fill. Where the usable
/// regions lie at page boundaries and apart from every other region, the
/// free frames are at least those that the usable bytes fill, less the
/// frames that the bitmap's bytes fill.
pub proof fn lemma_free_frames_after_setup(regions: Seq<MemoryRegion>, allocator: &BitmapFrameAllocator)
    requires
        allocator.wf(),
        allocator.frames() == frames_covered(regions),
        forall|f: int|
            0 <= f < allocator.bits().len() ==> allocator.bits()[f] == !free_at_start(
                regions,
                allocator.bitmap_base() as int,
                bitmap_bytes(regions),
                f,
            ),
    ensures
        allocator.free_count() <= usable_bytes(regions) / 4096,
        page_aligned(regions) && apart(regions) && allocator.bitmap_base() % 4096 == 0
            ==> allocator.free_count() >= usable_bytes(regions) / 4096 - (bitmap_bytes(regions)
            + 4095) / 4096,
{
    lemma_max_usable_end(regions);
    lemma_free_frames_bounds(
        regions,
        allocator.bits(),
        allocator.bitmap_base() as int,
        bitmap_bytes(regions),
    );
}

} // verus!
