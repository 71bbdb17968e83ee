//! Virtual pages of the kernel heap window: a cursor that only moves
//! forward, and for every page handed out the frame behind it.

use crate::memory::{BitmapFrameAllocator, PAGE_SIZE};
use crate::paging::{frame_containing, is_canonical, is_physical, page_containing, PageFlags};
use vstd::prelude::*;

verus! {

/// First address of the kernel heap window.
pub const KERNEL_HEAP_START: u64 = 0xFFFF_FF00_0000_0000;

/// Size of the kernel heap window: 1 GiB.
pub const KERNEL_HEAP_SIZE: u64 = 0x4000_0000;

/// First address past the kernel heap window.
pub const KERNEL_HEAP_END: u64 = 0xFFFF_FF00_4000_0000;

/// Why the page tables refused a mapping.
#[derive(Clone, Copy, Debug, PartialEq, Eq, Structural)]
pub enum MapToError {
    /// A frame for a page table was needed and none was free.
    FrameAllocationFailed,
    /// The page lies inside a huge page that is mapped already.
    ParentEntryHugePage,
    /// The page is mapped already.
    PageAlreadyMapped,
}

/// Why the page tables refused to remove a mapping.
#[derive(Clone, Copy, Debug, PartialEq, Eq, Structural)]
pub enum UnmapError {
    /// The page lies inside a huge page.
    ParentEntryHugePage,
    /// The page is not mapped.
    PageNotMapped,
    /// The entry of the page holds an address that is no frame.
    InvalidFrameAddress,
}

/// The page tables of the running processor, as far as the allocator uses
/// them. Pages and frames are given by their start addresses.
pub trait Mapper {
    /// Maps `page` to `frame` with the given flag bits.
    fn map_to(&mut self, page: u64, frame: u64, flags: u64) -> Result<(), MapToError>;

    /// Removes the mapping of `page` and returns the frame it had.
    fn unmap(&mut self, page: u64) -> Result<u64, UnmapError>;

    /// Drops what the processor has cached of the translation of `page`.
    fn flush(&mut self, page: u64);
}

/// Why no pages were handed out.
#[derive(Clone, Copy, Debug, PartialEq, Eq, Structural)]
pub enum PageAllocError {
    /// No free frame was left.
    FrameExhausted,
    /// The pages do not fit between the cursor and the end of the window.
    VirtualExhausted,
    /// The page tables refused a mapping.
    MapFailed(MapToError),
}

/// Why pages were not, or not cleanly, given back.
#[derive(Clone, Copy, Debug, PartialEq, Eq, Structural)]
pub enum PageFreeError {
    /// One of the pages was never handed out or has been given back.
    NotMapped,
    /// The pages were given back, but the page tables reported an error.
    Unmap(UnmapError),
}

/// Why a page was not mapped anew.
#[derive(Clone, Copy, Debug, PartialEq, Eq, Structural)]
pub enum RemapError {
    /// The page tables refused to remove the old mapping.
    Unmapping(UnmapError),
    /// The page tables refused the new mapping.
    Mapping(MapToError),
}

/// The frame to map a page to once its old mapping is gone: the frame that
/// it was mapped to, or `known_frame` where it was not mapped at all. Any
/// other error stands.
pub open spec fn frame_to_map(unmapped: Result<u64, UnmapError>, known_frame: u64) -> Result<
    u64,
    UnmapError,
> {
    match unmapped {
        Ok(f) => Ok(f),
        Err(UnmapError::PageNotMapped) => Ok(known_frame),
        Err(e) => Err(e),
    }
}

/// The frame to map a page to once its old mapping is gone: the frame that
/// it was mapped to, or `known_frame` where it was not mapped at all. Any
/// other error stands.
pub fn frame_after_unmap(unmapped: Result<u64, UnmapError>, known_frame: u64) -> (frame: Result<
    u64,
    UnmapError,
>)
    ensures
        frame == frame_to_map(unmapped, known_frame),
{
    match unmapped {
        Ok(f) => Ok(f),
        Err(UnmapError::PageNotMapped) => Ok(known_frame),
        Err(e) => Err(e),
    }
}

/// What the allocator asks of the page tables.
#[derive(Clone, Copy, Debug, PartialEq, Eq, Structural)]
pub enum MapperRequest {
    /// Map `page` to `frame` with the flag bits `flags`.
    MapTo { page: u64, frame: u64, flags: u64 },
    /// Remove the mapping of `page`.
    Unmap { page: u64 },
    /// Drop the cached translation of `page`.
    Flush { page: u64 },
}

/// What the page tables answered to a request.
#[derive(Clone, Copy, Debug)]
pub enum MapperAnswer {
    /// The answer to a request to map a page.
    Mapped(Result<(), MapToError>),
    /// The answer to a request to unmap a page: the frame it had.
    Unmapped(Result<u64, UnmapError>),
    /// A flush has no answer.
    Flushed,
}

/// There is an answer to every request, and the answers given before are
/// still the first of them.
pub open spec fn trace_kept(
    requests: Seq<MapperRequest>,
    answers: Seq<MapperAnswer>,
    earlier: Seq<MapperAnswer>,
) -> bool {
    &&& answers.len() == requests.len()
    &&& earlier.len() <= answers.len()
    &&& forall|i: int| 0 <= i < earlier.len() ==> answers[i] == earlier[i]
}

/// From position `from` on, every mapping that was asked for was granted.
pub open spec fn granted_since(
    requests: Seq<MapperRequest>,
    answers: Seq<MapperAnswer>,
    from: int,
) -> bool {
    forall|i: int|
        from <= i < requests.len() && #[trigger] requests[i] is MapTo ==> (answers[i] matches MapperAnswer::Mapped(
            a,
        ) && a is Ok)
}

/// From position `from` on, a mapping that was asked for was refused with
/// the error `e`.
pub open spec fn refused_since(
    requests: Seq<MapperRequest>,
    answers: Seq<MapperAnswer>,
    from: int,
    e: MapToError,
) -> bool {
    exists|i: int|
        from <= i < requests.len() && #[trigger] requests[i] is MapTo && answers[i]
            == MapperAnswer::Mapped(Err(e))
}

/// From position `from` on, every unmapping that was asked for was done.
pub open spec fn unmapped_since(
    requests: Seq<MapperRequest>,
    answers: Seq<MapperAnswer>,
    from: int,
) -> bool {
    forall|i: int|
        from <= i < requests.len() && #[trigger] requests[i] is Unmap ==> (answers[i] matches MapperAnswer::Unmapped(
            a,
        ) && a is Ok)
}

/// From position `from` on, the first unmapping that was refused was refused
/// with the error `e`.
pub open spec fn first_unmap_refused(
    requests: Seq<MapperRequest>,
    answers: Seq<MapperAnswer>,
    from: int,
    e: UnmapError,
) -> bool {
    exists|i: int|
        from <= i < requests.len() && #[trigger] requests[i] is Unmap && answers[i]
            == MapperAnswer::Unmapped(Err(e)) && unmapped_since(
            requests.take(i),
            answers.take(i),
            from,
        )
}

/// What follows an answer of the frame allocator: the frame, or the error
/// that the frames have run out.
pub fn frame_or_exhausted(frame: Option<u64>) -> (r: Result<u64, PageAllocError>)
    ensures
        r == match frame {
            Some(f) => Ok::<u64, PageAllocError>(f),
            None => Err(PageAllocError::FrameExhausted),
        },
{
    match frame {
        Some(f) => Ok(f),
        None => Err(PageAllocError::FrameExhausted),
    }
}

/// What follows an answer of the page tables to a mapping: nothing where
/// they took it, their error as `MapFailed` where they did not.
pub fn mapped_or_failed(answer: Result<(), MapToError>) -> (r: Result<(), PageAllocError>)
    ensures
        r == match answer {
            Ok(()) => Ok::<(), PageAllocError>(()),
            Err(e) => Err(PageAllocError::MapFailed(e)),
        },
{
    match answer {
        Ok(()) => Ok(()),
        Err(e) => Err(PageAllocError::MapFailed(e)),
    }
}

/// What follows an answer of the page tables to an unmapping while pages are
/// given back: the first error stands, later answers do not change it.
pub fn note_unmapped(so_far: Result<(), PageFreeError>, answer: Result<u64, UnmapError>) -> (r: Result<
    (),
    PageFreeError,
>)
    ensures
        r == noted(so_far, answer),
{
    match (so_far, answer) {
        (Ok(()), Err(e)) => Err(PageFreeError::Unmap(e)),
        _ => so_far,
    }
}

/// What follows an answer of the page tables to the new mapping of a page.
pub fn remapped(answer: Result<(), MapToError>) -> (r: Result<(), RemapError>)
    ensures
        r == match answer {
            Ok(()) => Ok::<(), RemapError>(()),
            Err(e) => Err(RemapError::Mapping(e)),
        },
{
    match answer {
        Ok(()) => Ok(()),
        Err(e) => Err(RemapError::Mapping(e)),
    }
}

/// The requests that map the pages from `first` on, one after the other, to
/// `frames`: for each page a mapping with the flag bits `flags` and a flush.
pub open spec fn mapping_requests(first: int, frames: Seq<u64>, flags: u64) -> Seq<MapperRequest> {
    Seq::new(
        2 * frames.len(),
        |i: int|
            if i % 2 == 0 {
                MapperRequest::MapTo { page: (first + 4096 * (i / 2)) as u64, frame: frames[i / 2], flags }
            } else {
                MapperRequest::Flush { page: (first + 4096 * (i / 2)) as u64 }
            },
    )
}

/// The requests that take `n` pages from `first` on out of the page tables,
/// one after the other: for each page an unmapping and a flush.
pub open spec fn unmapping_requests(first: int, n: nat) -> Seq<MapperRequest> {
    Seq::new(
        2 * n,
        |i: int|
            if i % 2 == 0 {
                MapperRequest::Unmap { page: (first + 4096 * (i / 2)) as u64 }
            } else {
                MapperRequest::Flush { page: (first + 4096 * (i / 2)) as u64 }
            },
    )
}

/// Mapping one more page adds a mapping and a flush to the requests.
pub proof fn lemma_mapping_next(first: int, frames: Seq<u64>, frame: u64, flags: u64)
    ensures
        mapping_requests(first, frames.push(frame), flags) == mapping_requests(
            first,
            frames,
            flags,
        ).push(
            MapperRequest::MapTo { page: (first + 4096 * frames.len()) as u64, frame, flags },
        ).push(MapperRequest::Flush { page: (first + 4096 * frames.len()) as u64 }),
{
    assert(mapping_requests(first, frames.push(frame), flags) =~= mapping_requests(
        first,
        frames,
        flags,
    ).push(
        MapperRequest::MapTo { page: (first + 4096 * frames.len()) as u64, frame, flags },
    ).push(MapperRequest::Flush { page: (first + 4096 * frames.len()) as u64 }));
}

/// Unmapping one more page adds an unmapping and a flush to the requests.
pub proof fn lemma_unmapping_next(first: int, n: nat)
    ensures
        unmapping_requests(first, n + 1) == unmapping_requests(first, n).push(
            MapperRequest::Unmap { page: (first + 4096 * n) as u64 },
        ).push(MapperRequest::Flush { page: (first + 4096 * n) as u64 }),
{
    assert(unmapping_requests(first, n + 1) =~= unmapping_requests(first, n).push(
        MapperRequest::Unmap { page: (first + 4096 * n) as u64 },
    ).push(MapperRequest::Flush { page: (first + 4096 * n) as u64 }));
}

/// Unmapping and flushing asks for no mapping: where every mapping was
/// granted before, every mapping is granted afterwards.
pub proof fn lemma_unwinding_grants(
    requests: Seq<MapperRequest>,
    answers: Seq<MapperAnswer>,
    later_requests: Seq<MapperRequest>,
    later_answers: Seq<MapperAnswer>,
    from: int,
    first: int,
    n: nat,
)
    requires
        answers.len() == requests.len(),
        0 <= from,
        granted_since(requests, answers, from),
        later_requests == requests + unmapping_requests(first, n),
        trace_kept(later_requests, later_answers, answers),
    ensures
        granted_since(later_requests, later_answers, from),
{
    assert forall|i: int|
        from <= i < later_requests.len() && #[trigger] later_requests[i] is MapTo implies (
    later_answers[i] matches MapperAnswer::Mapped(a) && a is Ok) by {
        if i < requests.len() {
            assert(later_requests[i] == requests[i]);
            assert(requests[i] is MapTo);
        } else {
            assert(later_requests[i] == unmapping_requests(first, n)[i - requests.len()]);
        }
    }
}

/// A mapping that was granted, and the flush behind it, keep every mapping
/// granted.
pub proof fn lemma_mapping_granted(
    requests: Seq<MapperRequest>,
    answers: Seq<MapperAnswer>,
    from: int,
    mapping: MapperRequest,
    answer: Result<(), MapToError>,
    flush: MapperRequest,
)
    requires
        answers.len() == requests.len(),
        0 <= from,
        granted_since(requests, answers, from),
        answer is Ok,
        flush is Flush,
    ensures
        granted_since(
            requests.push(mapping).push(flush),
            answers.push(MapperAnswer::Mapped(answer)).push(MapperAnswer::Flushed),
            from,
        ),
{
    let later_requests = requests.push(mapping).push(flush);
    let later_answers = answers.push(MapperAnswer::Mapped(answer)).push(MapperAnswer::Flushed);
    assert forall|i: int|
        from <= i < later_requests.len() && #[trigger] later_requests[i] is MapTo implies (
    later_answers[i] matches MapperAnswer::Mapped(a) && a is Ok) by {
        if i < requests.len() {
            assert(later_requests[i] == requests[i]);
            assert(requests[i] is MapTo);
        }
    }
}

/// What follows an answer to an unmapping while pages are given back: the
/// first error stands.
pub open spec fn noted(so_far: Result<(), PageFreeError>, answer: Result<u64, UnmapError>) -> Result<
    (),
    PageFreeError,
> {
    match (so_far, answer) {
        (Ok(()), Err(e)) => Err(PageFreeError::Unmap(e)),
        _ => so_far,
    }
}

/// One more unmapping and its flush keep the result in step with the
/// answers: `Ok` while every unmapping was done, else the first error.
pub proof fn lemma_unmapping_noted(
    requests: Seq<MapperRequest>,
    answers: Seq<MapperAnswer>,
    from: int,
    so_far: Result<(), PageFreeError>,
    unmapping: MapperRequest,
    answer: Result<u64, UnmapError>,
    flush: MapperRequest,
)
    requires
        answers.len() == requests.len(),
        0 <= from <= requests.len(),
        unmapping is Unmap,
        flush is Flush,
        so_far is Ok ==> unmapped_since(requests, answers, from),
        so_far matches Err(PageFreeError::Unmap(e)) ==> first_unmap_refused(
            requests,
            answers,
            from,
            e,
        ),
    ensures
        noted(so_far, answer) is Ok ==> unmapped_since(
            requests.push(unmapping).push(flush),
            answers.push(MapperAnswer::Unmapped(answer)).push(MapperAnswer::Flushed),
            from,
        ),
        noted(so_far, answer) matches Err(PageFreeError::Unmap(e)) ==> first_unmap_refused(
            requests.push(unmapping).push(flush),
            answers.push(MapperAnswer::Unmapped(answer)).push(MapperAnswer::Flushed),
            from,
            e,
        ),
{
    let later = requests.push(unmapping).push(flush);
    let later_answers = answers.push(MapperAnswer::Unmapped(answer)).push(MapperAnswer::Flushed);
    let at = requests.len() as int;
    if so_far is Ok {
        if answer is Err {
            assert(later[at] is Unmap);
            assert(later.take(at) =~= requests);
            assert(later_answers.take(at) =~= answers);
        } else {
            assert forall|j: int|
                from <= j < later.len() && #[trigger] later[j] is Unmap implies (
            later_answers[j] matches MapperAnswer::Unmapped(a) && a is Ok) by {
                if j < at {
                    assert(later[j] == requests[j]);
                    assert(requests[j] is Unmap);
                }
            }
        }
    } else if so_far matches Err(PageFreeError::Unmap(_)) {
        let e = so_far->Err_0->Unmap_0;
        let w = choose|w: int|
            from <= w < requests.len() && #[trigger] requests[w] is Unmap && answers[w]
                == MapperAnswer::Unmapped(Err(e)) && unmapped_since(
                requests.take(w),
                answers.take(w),
                from,
            );
        assert(later[w] == requests[w]);
        assert(later[w] is Unmap);
        assert(later_answers[w] == answers[w]);
        assert(later.take(w) =~= requests.take(w));
        assert(later_answers.take(w) =~= answers.take(w));
    }
}

/// The frame behind an entry, 0 for a page that is not mapped.
pub open spec fn frame_of(entry: PageEntry) -> u64 {
    match entry {
        PageEntry::Unmapped => 0,
        PageEntry::Owned(f) => f,
        PageEntry::Borrowed(f) => f,
    }
}

/// The frames behind the entries `pages[from..from + n]`, in order.
pub open spec fn frames_of(pages: Seq<PageEntry>, from: int, n: nat) -> Seq<u64> {
    Seq::new(n, |i: int| frame_of(pages[from + i]))
}

/// The frames from the one that holds `phys` on, `n` of them, in order.
pub open spec fn frames_from(phys: u64, n: nat) -> Seq<u64> {
    Seq::new(n, |i: int| (phys - phys % 4096 + 4096 * i) as u64)
}

/// What stands behind a page that the cursor has passed.
#[derive(Clone, Copy, Debug, PartialEq, Eq, Structural)]
pub enum PageEntry {
    /// Nothing: the page has been given back.
    Unmapped,
    /// A frame that the allocator took for this page and frees with it.
    Owned(u64),
    /// A frame that belongs to someone else, such as device memory.
    Borrowed(u64),
}

/// Header that precedes a run of pages.
#[derive(Clone, Copy, Debug)]
pub struct PageAllocHeader {
    pub num_pages: usize,
}

/// The entry owns the frame with index `g`.
pub open spec fn owns(entry: PageEntry, g: int) -> bool {
    entry matches PageEntry::Owned(f) && f == g * 4096
}

/// Number of entries among `pages[from..from + n]` that own their frame.
pub open spec fn owned_in(pages: Seq<PageEntry>, from: int, n: nat) -> nat
    decreases n,
{
    if n == 0 {
        0
    } else {
        owned_in(pages, from, (n - 1) as nat) + if pages[from + n - 1] is Owned {
            1nat
        } else {
            0nat
        }
    }
}

/// `taken` lists distinct frames, each page-aligned, covered by the bitmap
/// and free in `before`; `now` is `before` with the bits of those frames
/// set.
pub open spec fn covers(before: Seq<bool>, now: Seq<bool>, taken: Seq<u64>, frames: nat) -> bool {
    &&& before.len() == now.len()
    &&& frames <= now.len()
    &&& forall|k: int|
        0 <= k < taken.len() ==> (#[trigger] taken[k]) % 4096 == 0 && taken[k] / 4096 < frames
            && !before[taken[k] as int / 4096]
    &&& forall|k: int, l: int| 0 <= k < l < taken.len() ==> taken[k] != taken[l]
    &&& forall|g: int|
        0 <= g < before.len() ==> now[g] == (before[g] || exists|k: int|
            0 <= k < taken.len() && #[trigger] taken[k] == g * 4096)
}

/// Every frame that is free in `before` and lies below `taken[k]` stands in
/// `taken` before position `k`.
pub open spec fn lowest_first(before: Seq<bool>, taken: Seq<u64>) -> bool {
    forall|k: int, j: int|
        #![trigger taken[k], before[j]]
        0 <= k < taken.len() && 0 <= j < taken[k] / 4096 && !before[j] ==> exists|m: int|
            0 <= m < k && #[trigger] taken[m] == j * 4096
}

/// `taken` lists the free frames of `bits` with the lowest indices, in rising
/// order, by their addresses.
pub open spec fn are_lowest_free(bits: Seq<bool>, taken: Seq<u64>) -> bool {
    &&& forall|k: int|
        0 <= k < taken.len() ==> (#[trigger] taken[k]) % 4096 == 0 && taken[k] / 4096 < bits.len()
            && !bits[taken[k] as int / 4096]
    &&& forall|k: int, l: int| 0 <= k < l < taken.len() ==> taken[k] != taken[l]
    &&& lowest_first(bits, taken)
}

/// Taking the lowest free frame of `now` keeps `covers` and `lowest_first`.
pub proof fn lemma_take_lowest(before: Seq<bool>, now: Seq<bool>, taken: Seq<u64>, frames: nat, frame: u64)
    requires
        covers(before, now, taken, frames),
        lowest_first(before, taken),
        frame % 4096 == 0,
        frame / 4096 < frames,
        !now[frame as int / 4096],
        forall|j: int| 0 <= j < frame / 4096 ==> now[j],
    ensures
        covers(before, now.update(frame as int / 4096, true), taken.push(frame), frames),
        lowest_first(before, taken.push(frame)),
{
    let idx = frame as int / 4096;
    let after = now.update(idx, true);
    let more = taken.push(frame);
    let n = taken.len() as int;
    assert(!before[idx]);
    assert forall|k: int| 0 <= k < more.len() implies (#[trigger] more[k]) % 4096 == 0 && more[k]
        / 4096 < frames && !before[more[k] as int / 4096] by {
        if k < n {
            assert(more[k] == taken[k]);
        }
    }
    assert forall|k: int, l: int| 0 <= k < l < more.len() implies more[k] != more[l] by {
        assert(more[k] == taken[k]);
        if l == n {
            if taken[k] == frame {
                assert(taken[k] == idx * 4096);
            }
        } else {
            assert(more[l] == taken[l]);
        }
    }
    assert forall|g: int| 0 <= g < before.len() implies after[g] == (before[g] || exists|k: int|
        0 <= k < more.len() && #[trigger] more[k] == g * 4096) by {
        if g == idx {
            assert(more[n] == g * 4096);
        } else {
            if exists|k: int| 0 <= k < taken.len() && #[trigger] taken[k] == g * 4096 {
                let k = choose|k: int| 0 <= k < taken.len() && #[trigger] taken[k] == g * 4096;
                assert(more[k] == g * 4096);
            }
            if exists|k: int| 0 <= k < more.len() && #[trigger] more[k] == g * 4096 {
                let k = choose|k: int| 0 <= k < more.len() && #[trigger] more[k] == g * 4096;
                assert(k < n);
                assert(taken[k] == g * 4096);
            }
        }
    }
    assert forall|k: int, j: int|
        #![trigger more[k], before[j]]
        0 <= k < more.len() && 0 <= j < more[k] / 4096 && !before[j] implies exists|m: int|
        0 <= m < k && #[trigger] more[m] == j * 4096 by {
        if k == n {
            assert(now[j]);
            let m = choose|m: int| 0 <= m < taken.len() && #[trigger] taken[m] == j * 4096;
            assert(more[m] == j * 4096);
        } else {
            assert(more[k] == taken[k]);
            let m = choose|m: int| 0 <= m < k && #[trigger] taken[m] == j * 4096;
            assert(more[m] == j * 4096);
        }
    }
}

/// Freeing the first frame of `taken` keeps `covers` for the rest.
proof fn lemma_free_first(before: Seq<bool>, now: Seq<bool>, taken: Seq<u64>, frames: nat)
    requires
        covers(before, now, taken, frames),
        taken.len() > 0,
    ensures
        covers(before, now.update(taken[0] as int / 4096, false), taken.drop_first(), frames),
{
    let idx = taken[0] as int / 4096;
    let after = now.update(idx, false);
    let rest = taken.drop_first();
    assert forall|k: int| 0 <= k < rest.len() implies (#[trigger] rest[k]) % 4096 == 0 && rest[k]
        / 4096 < frames && !before[rest[k] as int / 4096] by {
        assert(rest[k] == taken[k + 1]);
    }
    assert forall|k: int, l: int| 0 <= k < l < rest.len() implies rest[k] != rest[l] by {
        assert(rest[k] == taken[k + 1] && rest[l] == taken[l + 1]);
    }
    assert forall|g: int| 0 <= g < before.len() implies after[g] == (before[g] || exists|k: int|
        0 <= k < rest.len() && #[trigger] rest[k] == g * 4096) by {
        if exists|k: int| 0 <= k < rest.len() && #[trigger] rest[k] == g * 4096 {
            let k = choose|k: int| 0 <= k < rest.len() && #[trigger] rest[k] == g * 4096;
            assert(taken[k + 1] == g * 4096);
            assert(taken[0] != taken[k + 1]);
        }
        if g != idx {
            if exists|k: int| 0 <= k < taken.len() && #[trigger] taken[k] == g * 4096 {
                let k = choose|k: int| 0 <= k < taken.len() && #[trigger] taken[k] == g * 4096;
                assert(k != 0);
                assert(rest[k - 1] == g * 4096);
            }
        } else {
            assert(taken[0] == g * 4096);
        }
    }
}

/// With nothing taken, the bitmap is as it was.
proof fn lemma_covers_nothing(before: Seq<bool>, now: Seq<bool>, frames: nat)
    requires
        covers(before, now, Seq::<u64>::empty(), frames),
    ensures
        now =~= before,
{
}

/// `now` is `before` with the bits cleared of the frames that the entries
/// `pages[first..first + n]` own.
pub open spec fn released(
    before: Seq<bool>,
    now: Seq<bool>,
    pages: Seq<PageEntry>,
    first: int,
    n: int,
) -> bool {
    &&& before.len() == now.len()
    &&& forall|g: int|
        0 <= g < before.len() ==> now[g] == (before[g] && !exists|i: int|
            first <= i < first + n && owns(#[trigger] pages[i], g))
}

/// Passing over one more entry keeps `released`, with the bit of its frame
/// cleared where it owns one.
proof fn lemma_release_next(
    before: Seq<bool>,
    now: Seq<bool>,
    pages: Seq<PageEntry>,
    first: int,
    n: int,
)
    requires
        released(before, now, pages, first, n),
        0 <= first,
        0 <= n,
        first + n < pages.len(),
        pages[first + n] matches PageEntry::Owned(f) ==> f % 4096 == 0 && f / 4096 < before.len(),
    ensures
        released(
            before,
            match pages[first + n] {
                PageEntry::Owned(f) => now.update(f as int / 4096, false),
                _ => now,
            },
            pages,
            first,
            n + 1,
        ),
{
    let entry = pages[first + n];
    let after = match entry {
        PageEntry::Owned(f) => now.update(f as int / 4096, false),
        _ => now,
    };
    assert forall|g: int| 0 <= g < before.len() implies after[g] == (before[g] && !exists|i: int|
        first <= i < first + n + 1 && owns(#[trigger] pages[i], g)) by {
        if exists|i: int| first <= i < first + n && owns(#[trigger] pages[i], g) {
            let i = choose|i: int| first <= i < first + n && owns(#[trigger] pages[i], g);
            assert(first <= i < first + n + 1 && owns(pages[i], g));
        }
        if owns(entry, g) {
            assert(owns(pages[first + n], g));
        }
        if exists|i: int| first <= i < first + n + 1 && owns(#[trigger] pages[i], g) {
            let i = choose|i: int| first <= i < first + n + 1 && owns(#[trigger] pages[i], g);
            if i < first + n {
                assert(first <= i < first + n && owns(pages[i], g));
            } else {
                assert(owns(entry, g));
            }
        }
    }
}

/// The window of `after` is that of `before`, and its cursor is not behind.
pub open spec fn moved_on<M: Mapper>(after: &PageAllocator<M>, before: &PageAllocator<M>) -> bool {
    &&& after.start() == before.start()
    &&& after.end() == before.end()
    &&& after.cursor() >= before.cursor()
}

/// Whatever the allocator does, its window stays and its cursor does not go
/// back.
pub proof fn lemma_cursor_moves_on<M: Mapper>(
    after: &PageAllocator<M>,
    before: &PageAllocator<M>,
    n: nat,
    addr: u64,
    phys: u64,
)
    requires
        after.same_as(before) || after.grown_from(before, n) || after.lent_from(before, phys, n)
            || after.shrunk_from(before, addr, n) || after.skipped_from(before, n),
    ensures
        moved_on(after, before),
{
}

/// Two runs of pages that the allocator hands out do not overlap, whatever
/// it does in between: in a history of allocators, each moved on from the
/// one before, the run handed out at step `i` ends before the run handed out
/// at a later step `j` begins.
pub proof fn lemma_runs_do_not_overlap<M: Mapper>(
    history: Seq<PageAllocator<M>>,
    i: int,
    n: nat,
    j: int,
    m: nat,
)
    requires
        0 <= i < j < history.len() - 1,
        forall|k: int| 0 <= k < history.len() - 1 ==> moved_on(&history[k + 1], #[trigger] &history[k]),
        history[i + 1].grown_from(&history[i], n) || history[i + 1].lent_from(&history[i], 0, n),
        history[j + 1].grown_from(&history[j], m) || history[j + 1].lent_from(&history[j], 0, m),
    ensures
        history[i].cursor() + 4096 * n <= history[j].cursor(),
        history[j].cursor() + 4096 * m == history[j + 1].cursor(),
    decreases j - i,
{
    if i + 1 < j {
        assert(moved_on(&history[j], &history[j - 1]));
        lemma_cursor_chain(history, i + 1, j);
    }
}

/// Along a history of allocators the cursor does not go back.
pub proof fn lemma_cursor_chain<M: Mapper>(history: Seq<PageAllocator<M>>, i: int, j: int)
    requires
        0 <= i <= j < history.len(),
        forall|k: int| 0 <= k < history.len() - 1 ==> moved_on(&history[k + 1], #[trigger] &history[k]),
    ensures
        history[i].cursor() <= history[j].cursor(),
        history[i].start() == history[j].start(),
        history[i].end() == history[j].end(),
    decreases j - i,
{
    if i < j {
        lemma_cursor_chain(history, i, j - 1);
        assert(moved_on(&history[j - 1 + 1], &history[j - 1]));
    }
}

/// Hands out runs of virtual pages from a window, each page backed by a
/// frame of its own or mapped to a given physical address. The cursor only
/// moves forward: pages that are given back return their frames, not their
/// addresses.
pub struct PageAllocator<M: Mapper> {
    frame_allocator: BitmapFrameAllocator,
    mapper: M,
    start_virt: u64,
    current_virt: u64,
    end_virt: u64,
    pages: Vec<PageEntry>,
    flags: Vec<PageFlags>,
    asked: Ghost<Seq<MapperRequest>>,
    answered: Ghost<Seq<MapperAnswer>>,
}

impl<M: Mapper> PageAllocator<M> {
    /// The frame allocator behind the pages.
    pub closed spec fn frames(&self) -> BitmapFrameAllocator {
        self.frame_allocator
    }

    /// First address of the window.
    pub closed spec fn start(&self) -> u64 {
        self.start_virt
    }

    /// The next address to hand out.
    pub closed spec fn cursor(&self) -> u64 {
        self.current_virt
    }

    /// First address past the window.
    pub closed spec fn end(&self) -> u64 {
        self.end_virt
    }

    /// One entry for each page between the start of the window and the
    /// cursor, in address order.
    pub closed spec fn pages(&self) -> Seq<PageEntry> {
        self.pages@
    }

    /// Everything that the allocator has asked of the page tables, in order.
    pub closed spec fn requests(&self) -> Seq<MapperRequest> {
        self.asked@
    }

    /// What the page tables answered to each request, in the same order.
    pub closed spec fn answers(&self) -> Seq<MapperAnswer> {
        self.answered@
    }

    /// For each page between the start of the window and the cursor, the
    /// flags it was mapped with.
    pub closed spec fn page_flags(&self) -> Seq<PageFlags> {
        self.flags@
    }

    /// The window is page-aligned and canonical, the cursor stands right
    /// behind the pages handed out, and the frames that pages own are
    /// distinct frames that the frame allocator holds as taken.
    pub open spec fn wf(&self) -> bool {
        &&& self.frames().wf()
        &&& self.start() % 4096 == 0
        &&& self.start() <= self.cursor() <= self.end()
        &&& (self.end() <= 0x0000_8000_0000_0000 || self.start() >= 0xFFFF_8000_0000_0000)
        &&& self.cursor() == self.start() + 4096 * self.pages().len()
        &&& self.page_flags().len() == self.pages().len()
        &&& self.answers().len() == self.requests().len()
        &&& forall|i: int|
            0 <= i < self.pages().len() ==> (#[trigger] self.pages()[i] matches PageEntry::Owned(f)
                ==> f % 4096 == 0 && self.frames().may_hand_out(f as int / 4096)
                && self.frames().bits()[f as int / 4096])
        &&& forall|i: int, j: int|
            0 <= i < j < self.pages().len() ==> (#[trigger] self.pages()[i] is Owned
                && #[trigger] self.pages()[j] is Owned ==> self.pages()[i] != self.pages()[j])
    }

    /// The `n` pages from the one that holds `addr` have been handed out and
    /// not given back.
    pub open spec fn mapped_range(&self, addr: u64, n: nat) -> bool {
        n == 0 || {
            &&& self.start() <= addr < self.cursor()
            &&& (addr - self.start()) / 4096 + n <= self.pages().len()
            &&& forall|i: int|
                0 <= i < n ==> #[trigger] self.pages()[(addr - self.start()) / 4096 + i]
                    != PageEntry::Unmapped
        }
    }

    /// The `n` pages from the one that holds `addr` each own a frame.
    pub open spec fn owned_range(&self, addr: u64, n: nat) -> bool {
        n == 0 || {
            &&& self.start() <= addr < self.cursor()
            &&& (addr - self.start()) / 4096 + n <= self.pages().len()
            &&& forall|i: int|
                0 <= i < n ==> #[trigger] self.pages()[(addr - self.start()) / 4096 + i] is Owned
        }
    }

    /// Nothing that the allocator records of its window, its pages and its
    /// frames differs from `before`. What it has asked of the page tables
    /// is not part of this: a request that fails leaves the allocator as it
    /// was, and the requests made on the way are stated apart.
    pub open spec fn same_as(&self, before: &Self) -> bool {
        &&& self.start() == before.start()
        &&& self.cursor() == before.cursor()
        &&& self.end() == before.end()
        &&& self.pages() == before.pages()
        &&& self.page_flags() == before.page_flags()
        &&& self.frames().bits() == before.frames().bits()
        &&& self.frames().frames() == before.frames().frames()
        &&& self.frames().usable_frames() == before.frames().usable_frames()
        &&& self.frames().bitmap_base() == before.frames().bitmap_base()
        &&& self.frames().bitmap_mapped_at() == before.frames().bitmap_mapped_at()
    }

    /// The window and the extent of the frame allocator are those of `before`.
    pub open spec fn same_bounds(&self, before: &Self) -> bool {
        &&& self.start() == before.start()
        &&& self.end() == before.end()
        &&& self.frames().frames() == before.frames().frames()
        &&& self.frames().usable_frames() == before.frames().usable_frames()
        &&& self.frames().bits().len() == before.frames().bits().len()
        &&& self.frames().bitmap_base() == before.frames().bitmap_base()
        &&& self.frames().bitmap_mapped_at() == before.frames().bitmap_mapped_at()
    }

    /// Since `before`, `n` pages have been handed out at the cursor, each
    /// with a frame of its own: the `n` free frames of `before` with the
    /// lowest indices, in rising order. Nothing else differs.
    pub open spec fn grown_from(&self, before: &Self, n: nat) -> bool {
        let len = before.pages().len() as int;
        &&& self.same_bounds(before)
        &&& self.cursor() == before.cursor() + 4096 * n
        &&& self.pages().len() == len + n
        &&& forall|i: int| 0 <= i < len ==> self.pages()[i] == before.pages()[i]
        &&& forall|i: int|
            0 <= i < n ==> (#[trigger] self.pages()[len + i] matches PageEntry::Owned(f) && f % 4096
                == 0 && before.frames().is_free(f as int / 4096) && forall|j: int|
                0 <= j < f / 4096 && before.frames().is_free(j) ==> exists|k: int|
                    0 <= k < i && owns(#[trigger] self.pages()[len + k], j))
        &&& forall|g: int|
            0 <= g < self.frames().bits().len() ==> self.frames().bits()[g] == (
            before.frames().bits()[g] || exists|i: int|
                0 <= i < n && owns(#[trigger] self.pages()[len + i], g))
        &&& self.frames().free_count() + n == before.frames().free_count()
    }

    /// Since `before`, `n` pages have been handed out at the cursor, page `i`
    /// mapped to the frame at `phys + 4096 * i`, which stays with its owner.
    /// Nothing else differs.
    pub open spec fn lent_from(&self, before: &Self, phys: u64, n: nat) -> bool {
        let len = before.pages().len() as int;
        &&& self.same_bounds(before)
        &&& self.frames().bits() == before.frames().bits()
        &&& self.cursor() == before.cursor() + 4096 * n
        &&& self.pages().len() == len + n
        &&& forall|i: int| 0 <= i < len ==> self.pages()[i] == before.pages()[i]
        &&& forall|i: int|
            0 <= i < n ==> #[trigger] self.pages()[len + i] == PageEntry::Borrowed(
                (phys - phys % 4096 + 4096 * i) as u64,
            )
    }

    /// Since `before`, the cursor has passed over `n` pages without handing
    /// them out. Nothing else differs.
    pub open spec fn skipped_from(&self, before: &Self, n: nat) -> bool {
        &&& self.same_bounds(before)
        &&& self.frames().bits() == before.frames().bits()
        &&& self.cursor() == before.cursor() + 4096 * n
        &&& self.pages() == before.pages() + Seq::new(n, |i: int| PageEntry::Unmapped)
        &&& self.page_flags() == before.page_flags() + Seq::new(
            n,
            |i: int| (PageFlags { present: false, writable: false, no_cache: false }),
        )
        &&& self.requests() == before.requests()
        &&& self.answers() == before.answers()
    }

    /// Since `before`, the `n` pages from the one that holds `addr` have been
    /// given back, and the frames that they owned are free again. Nothing
    /// else differs.
    pub open spec fn shrunk_from(&self, before: &Self, addr: u64, n: nat) -> bool {
        let first = (addr - before.start()) / 4096;
        &&& self.same_bounds(before)
        &&& self.cursor() == before.cursor()
        &&& self.pages().len() == before.pages().len()
        &&& self.page_flags() == before.page_flags()
        &&& forall|i: int|
            0 <= i < self.pages().len() ==> #[trigger] self.pages()[i] == if first <= i < first + n {
                PageEntry::Unmapped
            } else {
                before.pages()[i]
            }
        &&& forall|g: int|
            0 <= g < self.frames().bits().len() ==> self.frames().bits()[g] == (
            before.frames().bits()[g] && !exists|i: int|
                first <= i < first + n && owns(#[trigger] before.pages()[i], g))
        &&& self.frames().free_count() == before.frames().free_count() + owned_in(
            before.pages(),
            first,
            n,
        )
    }

    /// An allocator for the window `[start_virt, end_virt)` that has handed
    /// out nothing yet.
    pub fn new(mapper: M, frame_allocator: BitmapFrameAllocator, start_virt: u64, end_virt: u64) -> (made: Self)
        requires
            frame_allocator.wf(),
            start_virt % 4096 == 0,
            start_virt <= end_virt,
            end_virt <= 0x0000_8000_0000_0000 || start_virt >= 0xFFFF_8000_0000_0000,
        ensures
            made.wf(),
            made.frames() == frame_allocator,
            made.start() == start_virt,
            made.cursor() == start_virt,
            made.end() == end_virt,
            made.pages() == Seq::<PageEntry>::empty(),
            made.page_flags() == Seq::<PageFlags>::empty(),
            made.requests() == Seq::<MapperRequest>::empty(),
            made.answers() == Seq::<MapperAnswer>::empty(),
    {
        PageAllocator {
            mapper,
            frame_allocator,
            start_virt,
            current_virt: start_virt,
            end_virt,
            pages: Vec::new(),
            flags: Vec::new(),
            asked: Ghost(Seq::empty()),
            answered: Ghost(Seq::empty()),
        }
    }

    /// The next address that will be handed out.
    pub fn current_virt(&self) -> (addr: u64)
        ensures
            addr == self.cursor(),
    {
        self.current_virt
    }

    /// First address past the window.
    pub fn end_virt(&self) -> (addr: u64)
        ensures
            addr == self.end(),
    {
        self.end_virt
    }

    /// The frame allocator behind the pages.
    pub fn frame_allocator(&self) -> (frames: &BitmapFrameAllocator)
        ensures
            *frames == self.frames(),
    {
        &self.frame_allocator
    }

    /// The frame behind the page that holds `addr`, where that page has been
    /// handed out and not given back.
    pub fn translate(&self, addr: u64) -> (frame: Option<u64>)
        requires
            self.wf(),
        ensures
            frame == if self.start() <= addr < self.cursor() {
                match self.pages()[(addr - self.start()) / 4096] {
                    PageEntry::Unmapped => None,
                    PageEntry::Owned(f) => Some(f),
                    PageEntry::Borrowed(f) => Some(f),
                }
            } else {
                None
            },
    {
        if addr < self.start_virt || addr >= self.current_virt {
            return None;
        }
        let len = self.pages.len();
        assert((addr - self.start_virt) / 4096 < len);
        let index: usize = ((addr - self.start_virt) / PAGE_SIZE) as usize;
        match self.pages[index] {
            PageEntry::Unmapped => None,
            PageEntry::Owned(f) => Some(f),
            PageEntry::Borrowed(f) => Some(f),
        }
    }

    /// The flags with which the page that holds `addr` is mapped, where that
    /// page has been handed out and not given back.
    pub fn flags_at(&self, addr: u64) -> (flags: Option<PageFlags>)
        requires
            self.wf(),
        ensures
            flags == if self.start() <= addr < self.cursor() && self.pages()[(addr - self.start())
                / 4096] != PageEntry::Unmapped {
                Some(self.page_flags()[(addr - self.start()) / 4096])
            } else {
                None
            },
    {
        if addr < self.start_virt || addr >= self.current_virt {
            return None;
        }
        let len = self.pages.len();
        assert((addr - self.start_virt) / 4096 < len);
        let index: usize = ((addr - self.start_virt) / PAGE_SIZE) as usize;
        match self.pages[index] {
            PageEntry::Unmapped => None,
            _ => Some(self.flags[index]),
        }
    }

    /// Whether the `num_pages` pages from the one that holds `addr` have been
    /// handed out and not given back.
    pub fn is_mapped_range(&self, addr: u64, num_pages: usize) -> (b: bool)
        requires
            self.wf(),
        ensures
            b == self.mapped_range(addr, num_pages as nat),
    {
        if num_pages == 0 {
            return true;
        }
        if addr < self.start_virt || addr >= self.current_virt {
            return false;
        }
        let len = self.pages.len();
        assert((addr - self.start_virt) / 4096 < len);
        let first: usize = ((addr - self.start_virt) / PAGE_SIZE) as usize;
        if num_pages > len - first {
            return false;
        }
        let mut i: usize = 0;
        while i < num_pages
            invariant
                i <= num_pages,
                first + num_pages <= len,
                len == self.pages@.len(),
                first == (addr - self.start()) / 4096,
                forall|k: int| 0 <= k < i ==> #[trigger] self.pages()[first + k] != PageEntry::Unmapped,
            decreases num_pages - i,
        {
            match self.pages[first + i] {
                PageEntry::Unmapped => {
                    return false;
                },
                _ => {},
            }
            i += 1;
        }
        true
    }

    /// Whether the `num_pages` pages from the one that holds `addr` each own
    /// a frame.
    pub fn is_owned_range(&self, addr: u64, num_pages: usize) -> (b: bool)
        requires
            self.wf(),
        ensures
            b == self.owned_range(addr, num_pages as nat),
    {
        if num_pages == 0 {
            return true;
        }
        if addr < self.start_virt || addr >= self.current_virt {
            return false;
        }
        let len = self.pages.len();
        assert((addr - self.start_virt) / 4096 < len);
        let first: usize = ((addr - self.start_virt) / PAGE_SIZE) as usize;
        if num_pages > len - first {
            return false;
        }
        let mut i: usize = 0;
        while i < num_pages
            invariant
                i <= num_pages,
                first + num_pages <= len,
                len == self.pages@.len(),
                first == (addr - self.start()) / 4096,
                forall|k: int| 0 <= k < i ==> #[trigger] self.pages()[first + k] is Owned,
            decreases num_pages - i,
        {
            match self.pages[first + i] {
                PageEntry::Owned(_) => {},
                _ => {
                    return false;
                },
            }
            i += 1;
        }
        true
    }

    /// Every request has its answer, and the answers that `before` had are
    /// still the first.
    pub open spec fn kept_trace(&self, before: &Self) -> bool {
        trace_kept(self.requests(), self.answers(), before.answers())
    }

    /// Every mapping asked for since `before` was granted.
    pub open spec fn all_granted(&self, before: &Self) -> bool {
        granted_since(self.requests(), self.answers(), before.requests().len() as int)
    }

    /// A mapping asked for since `before` was refused with the error `e`.
    pub open spec fn refused(&self, before: &Self, e: MapToError) -> bool {
        refused_since(self.requests(), self.answers(), before.requests().len() as int, e)
    }

    /// What asking for `n` pages with the flag bits `flags` asks of the page
    /// tables, and when the pages are granted: when the window has room,
    /// `n` frames are free and the page tables take every mapping.
    /// Where the window has no room, nothing. Where the pages are
    /// granted, a mapping and a flush for each. Otherwise the allocator has
    /// taken free frames, lowest first, and mapped page after page until
    /// the frames ran out or the page tables refused a page; it has then
    /// unmapped and flushed the pages that it had mapped.
    pub open spec fn asked_for_pages(&self, before: &Self, n: nat, flags: u64, granted: bool) -> bool {
        let first = before.cursor() as int;
        &&& self.kept_trace(before)
        &&& granted == (before.cursor() + 4096 * n <= before.end() && before.frames().free_count()
            >= n && self.all_granted(before))
        &&& if before.cursor() + 4096 * n > before.end() {
            !granted && self.requests() == before.requests()
        } else if granted {
            self.requests() == before.requests() + mapping_requests(
                first,
                frames_of(self.pages(), before.pages().len() as int, n),
                flags,
            )
        } else {
            exists|taken: Seq<u64>|
                #![trigger are_lowest_free(before.frames().bits(), taken)]
                {
                    &&& are_lowest_free(before.frames().bits(), taken)
                    &&& taken.len() <= n
                    &&& ({
                        &&& taken.len() == before.frames().free_count()
                        &&& taken.len() < n
                        &&& self.requests() == before.requests() + mapping_requests(
                            first,
                            taken,
                            flags,
                        ) + unmapping_requests(first, taken.len())
                    }) || ({
                        &&& taken.len() > 0
                        &&& self.requests() == before.requests() + mapping_requests(
                            first,
                            taken.drop_last(),
                            flags,
                        ).push(
                            MapperRequest::MapTo {
                                page: (first + 4096 * (taken.len() - 1)) as u64,
                                frame: taken.last(),
                                flags,
                            },
                        ) + unmapping_requests(first, (taken.len() - 1) as nat)
                    })
                }
        }
    }

    /// What lending `n` pages to the frames from `phys` on asks of the page
    /// tables. Where the window has no room, nothing. Where the pages are
    /// granted, a mapping and a flush for each. Otherwise the page tables
    /// refused page `k`, and the `k` pages mapped before it were unmapped
    /// and flushed.
    pub open spec fn asked_to_lend(&self, before: &Self, phys: u64, n: nat, flags: u64, granted: bool) -> bool {
        let first = before.cursor() as int;
        &&& self.kept_trace(before)
        &&& granted == (before.cursor() + 4096 * n <= before.end() && self.all_granted(before))
        &&& if before.cursor() + 4096 * n > before.end() {
            !granted && self.requests() == before.requests()
        } else if granted {
            self.requests() == before.requests() + mapping_requests(first, frames_from(phys, n), flags)
        } else {
            exists|k: int|
                #![trigger unmapping_requests(first, k as nat)]
                {
                    &&& 0 <= k < n
                    &&& self.requests() == before.requests() + mapping_requests(
                        first,
                        frames_from(phys, k as nat),
                        flags,
                    ).push(
                        MapperRequest::MapTo {
                            page: (first + 4096 * k) as u64,
                            frame: (phys - phys % 4096 + 4096 * k) as u64,
                            flags,
                        },
                    ) + unmapping_requests(first, k as nat)
                }
        }
    }

    /// What mapping the page of `addr` anew asks of the page tables. First
    /// the page is unmapped. Where that fails for another reason than that
    /// the page was not mapped, nothing more is asked and the error is
    /// returned. Otherwise the page is flushed and mapped with the flag bits
    /// `flags`; where the page tables take the mapping, the page is flushed
    /// once more and the result is `Ok`, else the result is their error.
    /// The frame of the new mapping is the frame that the page had, or the
    /// frame that holds `known_phys` where the page was not mapped.
    pub open spec fn asked_to_remap(
        &self,
        before: &Self,
        addr: u64,
        known_phys: u64,
        flags: u64,
        r: Result<(), RemapError>,
    ) -> bool {
        let page = (addr - addr % 4096) as u64;
        let known = (known_phys - known_phys % 4096) as u64;
        let start = before.requests().len() as int;
        let asked = self.requests();
        let answers = self.answers();
        &&& self.kept_trace(before)
        &&& asked.len() > start
        &&& asked.take(start) == before.requests()
        &&& asked[start] == MapperRequest::Unmap { page }
        &&& answers[start] matches MapperAnswer::Unmapped(unmapped) && match r {
            Err(RemapError::Unmapping(e)) => {
                &&& e != UnmapError::PageNotMapped
                &&& unmapped == Err::<u64, UnmapError>(e)
                &&& asked.len() == start + 1
            },
            Err(RemapError::Mapping(e)) => {
                &&& asked.len() == start + 3
                &&& asked[start + 1] == MapperRequest::Flush { page }
                &&& frame_to_map(unmapped, known) matches Ok(frame) && asked[start + 2]
                    == (MapperRequest::MapTo { page, frame, flags })
                &&& answers[start + 2] == MapperAnswer::Mapped(Err(e))
            },
            Ok(()) => {
                &&& asked.len() == start + 4
                &&& asked[start + 1] == MapperRequest::Flush { page }
                &&& frame_to_map(unmapped, known) matches Ok(frame) && asked[start + 2]
                    == (MapperRequest::MapTo { page, frame, flags })
                &&& answers[start + 2] matches MapperAnswer::Mapped(a) && a is Ok
                &&& asked[start + 3] == MapperRequest::Flush { page }
            },
        }
    }

    /// Asks the page tables to map `page` to `frame`.
    fn ask_map(&mut self, page: u64, frame: u64, flags: u64) -> (r: Result<(), MapToError>)
        ensures
            final(self).frame_allocator == old(self).frame_allocator,
            final(self).start_virt == old(self).start_virt,
            final(self).current_virt == old(self).current_virt,
            final(self).end_virt == old(self).end_virt,
            final(self).pages == old(self).pages,
            final(self).flags == old(self).flags,
            final(self).asked@ == old(self).asked@.push(MapperRequest::MapTo { page, frame, flags }),
            final(self).answered@ == old(self).answered@.push(MapperAnswer::Mapped(r)),
    {
        let answer = self.mapper.map_to(page, frame, flags);
        proof {
            self.asked@ = self.asked@.push(MapperRequest::MapTo { page, frame, flags });
            self.answered@ = self.answered@.push(MapperAnswer::Mapped(answer));
        }
        answer
    }

    /// Asks the page tables to take `page` out.
    fn ask_unmap(&mut self, page: u64) -> (r: Result<u64, UnmapError>)
        ensures
            final(self).frame_allocator == old(self).frame_allocator,
            final(self).start_virt == old(self).start_virt,
            final(self).current_virt == old(self).current_virt,
            final(self).end_virt == old(self).end_virt,
            final(self).pages == old(self).pages,
            final(self).flags == old(self).flags,
            final(self).asked@ == old(self).asked@.push(MapperRequest::Unmap { page }),
            final(self).answered@ == old(self).answered@.push(MapperAnswer::Unmapped(r)),
    {
        let answer = self.mapper.unmap(page);
        proof {
            self.asked@ = self.asked@.push(MapperRequest::Unmap { page });
            self.answered@ = self.answered@.push(MapperAnswer::Unmapped(answer));
        }
        answer
    }

    /// Asks the processor to forget the translation of `page`.
    fn ask_flush(&mut self, page: u64)
        ensures
            final(self).frame_allocator == old(self).frame_allocator,
            final(self).start_virt == old(self).start_virt,
            final(self).current_virt == old(self).current_virt,
            final(self).end_virt == old(self).end_virt,
            final(self).pages == old(self).pages,
            final(self).flags == old(self).flags,
            final(self).asked@ == old(self).asked@.push(MapperRequest::Flush { page }),
            final(self).answered@ == old(self).answered@.push(MapperAnswer::Flushed),
    {
        proof {
            self.asked@ = self.asked@.push(MapperRequest::Flush { page });
            self.answered@ = self.answered@.push(MapperAnswer::Flushed);
        }
        self.mapper.flush(page);
    }

    /// The frames that pages own are set in `bits`.
    spec fn owned_set_in(&self, bits: Seq<bool>) -> bool {
        forall|i: int|
            0 <= i < self.pages@.len() ==> (#[trigger] self.pages@[i] matches PageEntry::Owned(f)
                ==> 0 <= f as int / 4096 < bits.len() && bits[f as int / 4096])
    }

    /// Undoes a run that could not be completed: unmaps the first `mapped`
    /// pages from `first_page` and frees every frame in `taken`.
    fn unwind(&mut self, first_page: u64, mapped: usize, taken: &Vec<u64>, Ghost(before): Ghost<Seq<bool>>)
        requires
            old(self).wf(),
            first_page + 4096 * mapped <= u64::MAX,
            covers(before, old(self).frames().bits(), taken@, old(self).frames().frames()),
            old(self).owned_set_in(before),
            forall|f: int|
                0 <= f < before.len() && !before[f] ==> #[trigger] old(self).frames().may_hand_out(f),
        ensures
            final(self).wf(),
            final(self).frames().bits() == before,
            final(self).frames().frames() == old(self).frames().frames(),
            final(self).frames().usable_frames() == old(self).frames().usable_frames(),
            final(self).frames().bitmap_base() == old(self).frames().bitmap_base(),
            final(self).frames().bitmap_mapped_at() == old(self).frames().bitmap_mapped_at(),
            final(self).start() == old(self).start(),
            final(self).cursor() == old(self).cursor(),
            final(self).end() == old(self).end(),
            final(self).pages() == old(self).pages(),
            final(self).page_flags() == old(self).page_flags(),
            final(self).requests() == old(self).requests() + unmapping_requests(
                first_page as int,
                mapped as nat,
            ),
            final(self).kept_trace(old(self)),
    {
        let mut k: usize = 0;
        proof {
            assert(self.asked@ =~= old(self).asked@ + unmapping_requests(first_page as int, 0));
        }
        while k < mapped
            invariant
                k <= mapped,
                first_page + 4096 * mapped <= u64::MAX,
                self.asked@ == old(self).asked@ + unmapping_requests(first_page as int, k as nat),
                trace_kept(self.asked@, self.answered@, old(self).answered@),
                self.frame_allocator == old(self).frame_allocator,
                self.start_virt == old(self).start_virt,
                self.current_virt == old(self).current_virt,
                self.end_virt == old(self).end_virt,
                self.pages == old(self).pages,
                self.flags == old(self).flags,
            decreases mapped - k,
        {
            let page: u64 = first_page + PAGE_SIZE * (k as u64);
            let _ = self.ask_unmap(page);
            self.ask_flush(page);
            proof {
                lemma_unmapping_next(first_page as int, k as nat);
                assert(self.asked@ =~= old(self).asked@ + unmapping_requests(
                    first_page as int,
                    (k + 1) as nat,
                ));
            }
            k += 1;
        }
        let mut k: usize = 0;
        proof {
            assert(taken@.subrange(0, taken.len() as int) =~= taken@);
        }
        while k < taken.len()
            invariant
                k <= taken.len(),
                self.frame_allocator.wf(),
                self.frame_allocator.frames() == old(self).frames().frames(),
                self.frame_allocator.usable_frames() == old(self).frames().usable_frames(),
                self.frame_allocator.bitmap_base() == old(self).frames().bitmap_base(),
                self.frame_allocator.bitmap_mapped_at() == old(self).frames().bitmap_mapped_at(),
                self.start_virt == old(self).start_virt,
                self.current_virt == old(self).current_virt,
                self.end_virt == old(self).end_virt,
                self.pages == old(self).pages,
                self.flags == old(self).flags,
                self.asked@ == old(self).asked@ + unmapping_requests(first_page as int, mapped as nat),
                trace_kept(self.asked@, self.answered@, old(self).answered@),
                forall|f: int|
                    0 <= f < before.len() && !before[f] ==> #[trigger] old(self).frames().may_hand_out(
                        f,
                    ),
                covers(
                    before,
                    self.frame_allocator.bits(),
                    taken@.subrange(k as int, taken.len() as int),
                    self.frame_allocator.frames(),
                ),
            decreases taken.len() - k,
        {
            let frame = taken[k];
            proof {
                let rest = taken@.subrange(k as int, taken.len() as int);
                assert(rest[0] == frame);
                assert(!before[frame as int / 4096]);
                assert(old(self).frames().may_hand_out(frame as int / 4096));
                lemma_free_first(before, self.frame_allocator.bits(), rest, self.frame_allocator.frames());
                assert(rest.drop_first() =~= taken@.subrange(k + 1, taken.len() as int));
            }
            self.frame_allocator.deallocate_frame(frame);
            k += 1;
        }
        proof {
            assert(taken@.subrange(k as int, taken.len() as int) =~= Seq::<u64>::empty());
            lemma_covers_nothing(before, self.frame_allocator.bits(), self.frame_allocator.frames());
        }
    }

    /// Records the frames in `taken` as the frames of the pages at the
    /// cursor and moves the cursor past them.
    fn commit(&mut self, taken: &Vec<u64>, flags: PageFlags, Ghost(initial): Ghost<Self>)
        requires
            initial.wf(),
            old(self).page_flags() == initial.page_flags(),
            old(self).answers().len() == old(self).requests().len(),
            old(self).frames().wf(),
            old(self).same_bounds(&initial),
            old(self).cursor() == initial.cursor(),
            old(self).pages() == initial.pages(),
            old(self).cursor() + 4096 * taken.len() <= old(self).end(),
            covers(
                initial.frames().bits(),
                old(self).frames().bits(),
                taken@,
                initial.frames().frames(),
            ),
            lowest_first(initial.frames().bits(), taken@),
            old(self).frames().free_count() + taken.len() == initial.frames().free_count(),
        ensures
            final(self).wf(),
            final(self).grown_from(&initial, taken.len() as nat),
            final(self).page_flags() == initial.page_flags() + Seq::new(
                taken.len() as nat,
                |i: int| flags,
            ),
            final(self).requests() == old(self).requests(),
            final(self).answers() == old(self).answers(),
            frames_of(final(self).pages(), initial.pages().len() as int, taken.len() as nat) == taken@,
    {
        let ghost len = self.pages@.len() as int;
        let ghost before = initial.frames().bits();
        proof {
            assert(self.flags@ =~= old(self).flags@ + Seq::new(0nat, |i: int| flags));
        }
        let mut k: usize = 0;
        while k < taken.len()
            invariant
                k <= taken.len(),
                len == old(self).pages@.len(),
                self.pages@.len() == len + k,
                self.start_virt == old(self).start_virt,
                self.current_virt == old(self).current_virt,
                self.end_virt == old(self).end_virt,
                self.frame_allocator == old(self).frame_allocator,
                self.asked == old(self).asked,
                self.answered == old(self).answered,
                forall|j: int| 0 <= j < len ==> self.pages@[j] == old(self).pages()[j],
                forall|j: int| 0 <= j < k ==> self.pages@[len + j] == PageEntry::Owned(taken[j]),
                self.flags@ == old(self).flags@ + Seq::new(k as nat, |i: int| flags),
            decreases taken.len() - k,
        {
            self.pages.push(PageEntry::Owned(taken[k]));
            self.flags.push(flags);
            proof {
                assert(self.flags@ =~= old(self).flags@ + Seq::new((k + 1) as nat, |i: int| flags));
            }
            k += 1;
        }
        self.current_virt = self.current_virt + PAGE_SIZE * (taken.len() as u64);
        proof {
            assert(frames_of(self.pages(), len, taken.len() as nat) =~= taken@) by {
                assert forall|j: int| 0 <= j < taken.len() implies frames_of(
                    self.pages(),
                    len,
                    taken.len() as nat,
                )[j] == taken@[j] by {
                    assert(self.pages@[len + j] == PageEntry::Owned(taken[j]));
                }
            }
        }
        proof {
            let n = taken.len() as int;
            assert forall|i: int| 0 <= i < self.pages().len() implies (
            #[trigger] self.pages()[i] matches PageEntry::Owned(f) ==> f % 4096 == 0 && self.frames().may_hand_out(f as int / 4096) && self.frames().bits()[f as int / 4096]) by {
                if i < len {
                    assert(self.pages()[i] == initial.pages()[i]);
                } else {
                    assert(self.pages()[i] == PageEntry::Owned(taken[i - len]));
                    assert(taken[i - len] == (taken[i - len] as int / 4096) * 4096);
                    assert(initial.frames().is_free(taken[i - len] as int / 4096));
                    assert(initial.frames().may_hand_out(taken[i - len] as int / 4096));
                }
            }
            assert forall|i: int, j: int|
                0 <= i < j < self.pages().len() && #[trigger] self.pages()[i] is Owned
                    && #[trigger] self.pages()[j] is Owned implies self.pages()[i]
                != self.pages()[j] by {
                if j < len {
                    assert(self.pages()[i] == initial.pages()[i]);
                    assert(self.pages()[j] == initial.pages()[j]);
                } else if i < len {
                    assert(self.pages()[i] == initial.pages()[i]);
                    assert(self.pages()[j] == PageEntry::Owned(taken[j - len]));
                } else {
                    assert(self.pages()[i] == PageEntry::Owned(taken[i - len]));
                    assert(self.pages()[j] == PageEntry::Owned(taken[j - len]));
                }
            }
            assert forall|i: int| 0 <= i < n implies (
            #[trigger] self.pages()[len + i] matches PageEntry::Owned(f) && f % 4096 == 0
                && initial.frames().is_free(f as int / 4096) && forall|j: int|
                0 <= j < f / 4096 && initial.frames().is_free(j) ==> exists|k: int|
                    0 <= k < i && owns(#[trigger] self.pages()[len + k], j)) by {
                assert(self.pages()[len + i] == PageEntry::Owned(taken[i]));
                let f = taken[i];
                assert forall|j: int|
                    0 <= j < f / 4096 && initial.frames().is_free(j) implies exists|k: int|
                    0 <= k < i && owns(#[trigger] self.pages()[len + k], j) by {
                    assert(!before[j]);
                    let m = choose|m: int| 0 <= m < i && #[trigger] taken[m] == j * 4096;
                    assert(self.pages()[len + m] == PageEntry::Owned(taken[m]));
                }
            }
            assert forall|g: int| 0 <= g < self.frames().bits().len() implies self.frames().bits()[g]
                == (initial.frames().bits()[g] || exists|i: int|
                0 <= i < n && owns(#[trigger] self.pages()[len + i], g)) by {
                if exists|k: int| 0 <= k < taken.len() && #[trigger] taken[k] == g * 4096 {
                    let k = choose|k: int| 0 <= k < taken.len() && #[trigger] taken[k] == g * 4096;
                    assert(self.pages()[len + k] == PageEntry::Owned(taken[k]));
                }
                if exists|i: int| 0 <= i < n && owns(#[trigger] self.pages()[len + i], g) {
                    let i = choose|i: int| 0 <= i < n && owns(#[trigger] self.pages()[len + i], g);
                    assert(self.pages()[len + i] == PageEntry::Owned(taken[i]));
                    assert(taken[i] == g * 4096);
                }
            }
        }
    }

    /// Hands out `num_pages` pages at the cursor, each mapped with `flags` to
    /// a frame taken from the frame allocator, and returns the address of
    /// the first. Where the window has no room the answer is
    /// `VirtualExhausted`; where the frames run out, `FrameExhausted`;
    /// where the page tables refuse a page, `MapFailed`. On every error
    /// the pages mapped so far are unmapped, their frames freed, and the
    /// allocator is as it was.
    pub fn allocate(&mut self, num_pages: usize, flags: PageFlags) -> (r: Result<u64, PageAllocError>)
        requires
            old(self).wf(),
        ensures
            final(self).wf(),
            old(self).cursor() + 4096 * num_pages > old(self).end() <==> r == Err::<u64, PageAllocError>(
                PageAllocError::VirtualExhausted,
            ),
            match r {
                Ok(addr) => addr == old(self).cursor() && final(self).grown_from(
                    old(self),
                    num_pages as nat,
                ) && final(self).page_flags() == old(self).page_flags() + Seq::new(
                    num_pages as nat,
                    |i: int| flags,
                ),
                Err(PageAllocError::FrameExhausted) => old(self).frames().free_count() < num_pages
                    && final(self).same_as(old(self)),
                Err(_) => final(self).same_as(old(self)),
            },
            final(self).asked_for_pages(old(self), num_pages as nat, flags.bits(), r is Ok),
            r == Err::<u64, PageAllocError>(PageAllocError::FrameExhausted) <==> old(self).cursor()
                + 4096 * num_pages <= old(self).end() && old(self).frames().free_count()
                < num_pages && final(self).all_granted(old(self)),
            r matches Err(PageAllocError::MapFailed(e)) ==> final(self).refused(old(self), e),
    {
        let ghost before = self.frame_allocator.bits();
        let room: u64 = self.end_virt - self.current_virt;
        if num_pages as u64 > room / PAGE_SIZE {
            return Err(PageAllocError::VirtualExhausted);
        }
        let flag_bits = flags.to_bits();
        let first_page: u64 = self.current_virt;
        let mut taken: Vec<u64> = Vec::new();
        let mut i: usize = 0;
        proof {
            assert(self.asked@ =~= old(self).asked@ + mapping_requests(
                first_page as int,
                taken@,
                flag_bits,
            ));
        }
        while i < num_pages
            invariant
                i <= num_pages,
                taken.len() == i,
                flag_bits == flags.bits(),
                self.asked@ == old(self).asked@ + mapping_requests(
                    first_page as int,
                    taken@,
                    flag_bits,
                ),
                trace_kept(self.asked@, self.answered@, old(self).answered@),
                granted_since(self.asked@, self.answered@, old(self).asked@.len() as int),
                self.frame_allocator.wf(),
                self.same_bounds(old(self)),
                self.current_virt == old(self).current_virt,
                self.pages == old(self).pages,
                self.flags == old(self).flags,
                old(self).wf(),
                first_page == self.current_virt,
                first_page + 4096 * num_pages <= self.end_virt,
                before == old(self).frames().bits(),
                self.frame_allocator.free_count() + i == old(self).frames().free_count(),
                covers(before, self.frame_allocator.bits(), taken@, self.frame_allocator.frames()),
                lowest_first(before, taken@),
            decreases num_pages - i,
        {
            let page = page_containing(first_page + PAGE_SIZE * (i as u64));
            let ghost holder = self.frame_allocator;
            match frame_or_exhausted(self.frame_allocator.allocate_frame()) {
                Err(error) => {
                    proof {
                        self.lemma_wf_covered(old(self), taken@);
                    }
                    let ghost middle = *self;
                    self.unwind(first_page, i, &taken, Ghost(before));
                    proof {
                        assert(are_lowest_free(before, taken@));
                        lemma_unwinding_grants(
                            middle.asked@,
                            middle.answered@,
                            self.asked@,
                            self.answered@,
                            old(self).asked@.len() as int,
                            first_page as int,
                            i as nat,
                        );
                    }
                    return Err(error);
                },
                Ok(frame) => {
                    proof {
                        assert(holder.is_free(frame as int / 4096));
                        assert forall|j: int| 0 <= j < frame / 4096 implies holder.bits()[j] by {
                            assert(!holder.is_free(j));
                        }
                        lemma_take_lowest(before, holder.bits(), taken@, holder.frames(), frame);
                    }
                    let ghost mapped = taken@;
                    let ghost earlier = *self;
                    taken.push(frame);
                    let answer = self.ask_map(page, frame, flag_bits);
                    match mapped_or_failed(answer) {
                        Err(error) => {
                            proof {
                                self.lemma_wf_covered(old(self), taken@);
                            }
                            let ghost middle = *self;
                            self.unwind(first_page, i, &taken, Ghost(before));
                            proof {
                                assert(are_lowest_free(before, taken@));
                                assert(taken@.drop_last() =~= mapped);
                                assert(taken@.last() == frame);
                                let at = middle.asked@.len() - 1;
                                assert(middle.asked@[at] is MapTo);
                                assert(self.asked@[at] == middle.asked@[at]);
                                assert(self.answered@[at] == middle.answered@[at]);
                                assert(!granted_since(
                                    self.asked@,
                                    self.answered@,
                                    old(self).asked@.len() as int,
                                ));
                            }
                            return Err(error);
                        },
                        Ok(()) => {
                            self.ask_flush(page);
                            proof {
                                lemma_mapping_granted(
                                    earlier.asked@,
                                    earlier.answered@,
                                    old(self).asked@.len() as int,
                                    MapperRequest::MapTo { page, frame, flags: flag_bits },
                                    answer,
                                    MapperRequest::Flush { page },
                                );
                                lemma_mapping_next(first_page as int, mapped, frame, flag_bits);
                                assert(self.asked@ =~= old(self).asked@ + mapping_requests(
                                    first_page as int,
                                    taken@,
                                    flag_bits,
                                ));
                            }
                        },
                    }
                },
            }
            i += 1;
        }
        self.commit(&taken, flags, Ghost(*old(self)));
        Ok(first_page)
    }

    /// While frames are taken and the pages are those of `initial`, the
    /// allocator stays well formed and the frames that pages own are set in
    /// the bitmap of `initial`.
    proof fn lemma_wf_covered(&self, initial: &Self, taken: Seq<u64>)
        requires
            initial.wf(),
            self.frames().wf(),
            self.same_bounds(initial),
            self.cursor() == initial.cursor(),
            self.pages() == initial.pages(),
            self.page_flags() == initial.page_flags(),
            self.answers().len() == self.requests().len(),
            covers(initial.frames().bits(), self.frames().bits(), taken, self.frames().frames()),
        ensures
            self.wf(),
            self.owned_set_in(initial.frames().bits()),
            forall|f: int|
                0 <= f < initial.frames().bits().len() && !initial.frames().bits()[f]
                    ==> #[trigger] self.frames().may_hand_out(f),
    {
        assert forall|i: int| 0 <= i < self.pages().len() implies (
        #[trigger] self.pages()[i] matches PageEntry::Owned(f) ==> f % 4096 == 0 && self.frames().may_hand_out(f as int / 4096) && self.frames().bits()[f as int / 4096]) by {
            assert(self.pages()[i] == initial.pages()[i]);
        }
        assert forall|f: int|
            0 <= f < initial.frames().bits().len() && !initial.frames().bits()[f]
                implies #[trigger] self.frames().may_hand_out(f) by {
            assert(initial.frames().is_free(f));
            assert(initial.frames().may_hand_out(f));
        }
    }

    /// Hands out `num_pages` pages at the cursor and maps page `i` with
    /// `flags` to the frame that holds `phys + 4096 * i`. No frame is taken
    /// from the frame allocator, and none is freed when the pages are given
    /// back. Where the window has no room the answer is `VirtualExhausted`;
    /// where the page tables refuse a page, `MapFailed`, with the pages
    /// mapped so far unmapped again and the allocator as it was.
    pub fn map_existing(&mut self, phys: u64, num_pages: usize, flags: PageFlags) -> (r: Result<
        u64,
        PageAllocError,
    >)
        requires
            old(self).wf(),
            phys + 4096 * num_pages <= 0x10_0000_0000_0000,
        ensures
            final(self).wf(),
            old(self).cursor() + 4096 * num_pages > old(self).end() <==> r == Err::<u64, PageAllocError>(
                PageAllocError::VirtualExhausted,
            ),
            match r {
                Ok(addr) => addr == old(self).cursor() && final(self).lent_from(
                    old(self),
                    phys,
                    num_pages as nat,
                ) && final(self).page_flags() == old(self).page_flags() + Seq::new(
                    num_pages as nat,
                    |i: int| flags,
                ),
                Err(e) => e != PageAllocError::FrameExhausted && final(self).same_as(old(self)),
            },
            final(self).asked_to_lend(old(self), phys, num_pages as nat, flags.bits(), r is Ok),
            r matches Err(PageAllocError::MapFailed(e)) ==> final(self).refused(old(self), e),
    {
        let ghost before = self.frame_allocator.bits();
        let room: u64 = self.end_virt - self.current_virt;
        if num_pages as u64 > room / PAGE_SIZE {
            return Err(PageAllocError::VirtualExhausted);
        }
        let flag_bits = flags.to_bits();
        let first_page: u64 = self.current_virt;
        let none: Vec<u64> = Vec::new();
        let mut i: usize = 0;
        proof {
            assert(self.asked@ =~= old(self).asked@ + mapping_requests(
                first_page as int,
                frames_from(phys, 0),
                flag_bits,
            ));
        }
        while i < num_pages
            invariant
                i <= num_pages,
                none@.len() == 0,
                flag_bits == flags.bits(),
                self.asked@ == old(self).asked@ + mapping_requests(
                    first_page as int,
                    frames_from(phys, i as nat),
                    flag_bits,
                ),
                trace_kept(self.asked@, self.answered@, old(self).answered@),
                granted_since(self.asked@, self.answered@, old(self).asked@.len() as int),
                *self == *old(self) || (self.frame_allocator == old(self).frame_allocator
                    && self.start_virt == old(self).start_virt && self.current_virt == old(
                    self,
                ).current_virt && self.end_virt == old(self).end_virt && self.pages == old(self).pages
                    && self.flags == old(self).flags),
                old(self).wf(),
                first_page == self.current_virt,
                first_page + 4096 * num_pages <= self.end_virt,
                phys + 4096 * num_pages <= 0x10_0000_0000_0000,
                before == old(self).frames().bits(),
            decreases num_pages - i,
        {
            let page = page_containing(first_page + PAGE_SIZE * (i as u64));
            let frame = frame_containing(phys + PAGE_SIZE * (i as u64));
            let ghost earlier = *self;
            let answer = self.ask_map(page, frame, flag_bits);
            match mapped_or_failed(answer) {
                Err(error) => {
                    proof {
                        assert forall|f: int| 0 <= f < before.len() && !before[f] implies #[trigger] self.frames().may_hand_out(
                            f,
                        ) by {
                            assert(old(self).frames().is_free(f));
                        }
                    }
                    let ghost middle = *self;
                    self.unwind(first_page, i, &none, Ghost(before));
                    proof {
                        let at = middle.asked@.len() - 1;
                        assert(middle.asked@[at] is MapTo);
                        assert(self.asked@[at] == middle.asked@[at]);
                        assert(self.answered@[at] == middle.answered@[at]);
                        assert(!granted_since(
                            self.asked@,
                            self.answered@,
                            old(self).asked@.len() as int,
                        ));
                    }
                    proof {
                        let first = old(self).cursor() as int;
                        let k = i as int;
                        assert(self.requests() =~= old(self).requests() + mapping_requests(
                            first,
                            frames_from(phys, k as nat),
                            flags.bits(),
                        ).push(
                            MapperRequest::MapTo {
                                page: (first + 4096 * k) as u64,
                                frame: (phys - phys % 4096 + 4096 * k) as u64,
                                flags: flags.bits(),
                            },
                        ) + unmapping_requests(first, k as nat));
                    }
                    return Err(error);
                },
                Ok(()) => {
                    self.ask_flush(page);
                    proof {
                        lemma_mapping_granted(
                            earlier.asked@,
                            earlier.answered@,
                            old(self).asked@.len() as int,
                            MapperRequest::MapTo { page, frame, flags: flag_bits },
                            answer,
                            MapperRequest::Flush { page },
                        );
                        lemma_mapping_next(
                            first_page as int,
                            frames_from(phys, i as nat),
                            frame,
                            flag_bits,
                        );
                        assert(frames_from(phys, i as nat).push(frame) =~= frames_from(
                            phys,
                            (i + 1) as nat,
                        ));
                        assert(self.asked@ =~= old(self).asked@ + mapping_requests(
                            first_page as int,
                            frames_from(phys, (i + 1) as nat),
                            flag_bits,
                        ));
                    }
                },
            }
            i += 1;
        }
        let ghost len = self.pages@.len() as int;
        proof {
            assert(self.flags@ =~= old(self).flags@ + Seq::new(0nat, |i: int| flags));
        }
        let mut k: usize = 0;
        while k < num_pages
            invariant
                k <= num_pages,
                len == old(self).pages@.len(),
                self.pages@.len() == len + k,
                self.start_virt == old(self).start_virt,
                self.current_virt == old(self).current_virt,
                self.end_virt == old(self).end_virt,
                self.frame_allocator == old(self).frame_allocator,
                self.asked@ == old(self).asked@ + mapping_requests(
                    old(self).current_virt as int,
                    frames_from(phys, num_pages as nat),
                    flags.bits(),
                ),
                trace_kept(self.asked@, self.answered@, old(self).answered@),
                granted_since(self.asked@, self.answered@, old(self).asked@.len() as int),
                phys + 4096 * num_pages <= 0x10_0000_0000_0000,
                forall|j: int| 0 <= j < len ==> self.pages@[j] == old(self).pages()[j],
                forall|j: int|
                    0 <= j < k ==> #[trigger] self.pages@[len + j] == PageEntry::Borrowed(
                        (phys - phys % 4096 + 4096 * j) as u64,
                    ),
                self.flags@ == old(self).flags@ + Seq::new(k as nat, |i: int| flags),
            decreases num_pages - k,
        {
            let frame = frame_containing(phys + PAGE_SIZE * (k as u64));
            self.pages.push(PageEntry::Borrowed(frame));
            self.flags.push(flags);
            proof {
                assert(self.flags@ =~= old(self).flags@ + Seq::new((k + 1) as nat, |i: int| flags));
            }
            k += 1;
        }
        self.current_virt = first_page + PAGE_SIZE * (num_pages as u64);
        proof {
            assert forall|i: int| 0 <= i < self.pages().len() implies (
            #[trigger] self.pages()[i] matches PageEntry::Owned(f) ==> f % 4096 == 0 && self.frames().may_hand_out(f as int / 4096) && self.frames().bits()[f as int / 4096]) by {
                if i < len {
                    assert(self.pages()[i] == old(self).pages()[i]);
                } else {
                    assert(self.pages()[len + (i - len)] is Borrowed);
                }
            }
            assert forall|i: int, j: int|
                0 <= i < j < self.pages().len() && #[trigger] self.pages()[i] is Owned
                    && #[trigger] self.pages()[j] is Owned implies self.pages()[i]
                != self.pages()[j] by {
                if j < len {
                    assert(self.pages()[i] == old(self).pages()[i]);
                    assert(self.pages()[j] == old(self).pages()[j]);
                } else {
                    assert(self.pages()[len + (j - len)] is Borrowed);
                }
            }
        }
        Ok(first_page)
    }

    /// Gives back the `num_pages` pages from the one that holds `addr`:
    /// unmaps each and frees the frame it owned. The addresses are not handed
    /// out again. Where one of the pages is not mapped, nothing is done
    /// and the answer is `NotMapped`. Otherwise the pages are given back,
    /// and the answer tells whether the page tables reported an error.
    pub fn dealloc(&mut self, addr: u64, num_pages: usize) -> (r: Result<(), PageFreeError>)
        requires
            old(self).wf(),
        ensures
            final(self).wf(),
            !old(self).mapped_range(addr, num_pages as nat) <==> r == Err::<(), PageFreeError>(
                PageFreeError::NotMapped,
            ),
            if old(self).mapped_range(addr, num_pages as nat) && num_pages > 0 {
                final(self).shrunk_from(old(self), addr, num_pages as nat)
            } else {
                final(self).same_as(old(self))
            },
            final(self).requests() == old(self).requests() + if old(self).mapped_range(
                addr,
                num_pages as nat,
            ) {
                unmapping_requests(addr - addr % 4096, num_pages as nat)
            } else {
                Seq::<MapperRequest>::empty()
            },
            final(self).kept_trace(old(self)),
            r is Ok <==> old(self).mapped_range(addr, num_pages as nat) && unmapped_since(
                final(self).requests(),
                final(self).answers(),
                old(self).requests().len() as int,
            ),
            r matches Err(PageFreeError::Unmap(e)) ==> first_unmap_refused(
                final(self).requests(),
                final(self).answers(),
                old(self).requests().len() as int,
                e,
            ),
    {
        if !self.is_mapped_range(addr, num_pages) {
            proof {
                assert(self.asked@ =~= old(self).asked@ + Seq::<MapperRequest>::empty());
            }
            return Err(PageFreeError::NotMapped);
        }
        proof {
            assert(self.asked@ =~= old(self).asked@ + unmapping_requests(addr - addr % 4096, 0));
        }
        if num_pages == 0 {
            return Ok(());
        }
        let len = self.pages.len();
        assert((addr - self.start_virt) / 4096 < len);
        let first: usize = ((addr - self.start_virt) / PAGE_SIZE) as usize;
        let ghost before = self.frame_allocator.bits();
        let mut result: Result<(), PageFreeError> = Ok(());
        let mut i: usize = 0;
        while i < num_pages
            invariant
                i <= num_pages,
                old(self).wf(),
                self.wf(),
                self.same_bounds(old(self)),
                self.current_virt == old(self).current_virt,
                first == (addr - old(self).start()) / 4096,
                old(self).start() <= addr,
                len == self.pages@.len(),
                len == old(self).pages@.len(),
                self.flags == old(self).flags,
                self.asked@ == old(self).asked@ + unmapping_requests(addr - addr % 4096, i as nat),
                trace_kept(self.asked@, self.answered@, old(self).answered@),
                result is Ok ==> unmapped_since(
                    self.asked@,
                    self.answered@,
                    old(self).asked@.len() as int,
                ),
                result matches Err(PageFreeError::Unmap(e)) ==> first_unmap_refused(
                    self.asked@,
                    self.answered@,
                    old(self).asked@.len() as int,
                    e,
                ),
                first + num_pages <= len,
                result != Err::<(), PageFreeError>(PageFreeError::NotMapped),
                before == old(self).frames().bits(),
                forall|j: int|
                    0 <= j < len ==> #[trigger] self.pages@[j] == if first <= j < first + i {
                        PageEntry::Unmapped
                    } else {
                        old(self).pages()[j]
                    },
                released(before, self.frame_allocator.bits(), old(self).pages(), first as int, i as int),
                self.frame_allocator.free_count() == old(self).frames().free_count() + owned_in(
                    old(self).pages(),
                    first as int,
                    i as nat,
                ),
            decreases num_pages - i,
        {
            let page = page_containing(addr + PAGE_SIZE * (i as u64));
            let ghost earlier = *self;
            let ghost so_far = result;
            let answer = self.ask_unmap(page);
            result = note_unmapped(result, answer);
            self.ask_flush(page);
            proof {
                lemma_unmapping_noted(
                    earlier.asked@,
                    earlier.answered@,
                    old(self).asked@.len() as int,
                    so_far,
                    MapperRequest::Unmap { page },
                    answer,
                    MapperRequest::Flush { page },
                );
            }
            proof {
                lemma_unmapping_next(addr - addr % 4096, i as nat);
                assert(self.asked@ =~= old(self).asked@ + unmapping_requests(
                    addr - addr % 4096,
                    (i + 1) as nat,
                ));
            }
            let entry = self.pages[first + i];
            proof {
                assert(entry == old(self).pages()[first + i]);
                lemma_release_next(
                    before,
                    self.frame_allocator.bits(),
                    old(self).pages(),
                    first as int,
                    i as int,
                );
            }
            match entry {
                PageEntry::Owned(frame) => {
                    self.frame_allocator.deallocate_frame(frame);
                },
                _ => {},
            }
            self.pages.set(first + i, PageEntry::Unmapped);
            proof {
                assert forall|k: int| 0 <= k < self.pages().len() implies (
                #[trigger] self.pages()[k] matches PageEntry::Owned(f) ==> f % 4096 == 0 && self.frames().may_hand_out(f as int / 4096) && self.frames().bits()[f as int / 4096]) by {
                    if self.pages()[k] is Owned {
                        assert(k != first + i);
                        assert(self.pages()[k] == old(self).pages()[k]);
                        if entry is Owned {
                            if k < first + i {
                                assert(old(self).pages()[k] != old(self).pages()[first + i]);
                            } else {
                                assert(old(self).pages()[first + i] != old(self).pages()[k]);
                            }
                        }
                    }
                }
                assert forall|k: int, l: int|
                    0 <= k < l < self.pages().len() && #[trigger] self.pages()[k] is Owned
                        && #[trigger] self.pages()[l] is Owned implies self.pages()[k]
                    != self.pages()[l] by {
                    assert(self.pages()[k] == old(self).pages()[k]);
                    assert(self.pages()[l] == old(self).pages()[l]);
                }
            }
            i += 1;
        }
        result
    }

    /// Moves the cursor forward by a number of pages that `entropy` picks, so
    /// that the addresses handed out cannot be foreseen: the cursor goes to
    /// the start of the page that lies `entropy`, taken modulo the bytes
    /// left in the window, behind it. The pages passed over are never
    /// handed out. Where the window has no byte left, nothing changes.
    pub fn init_start_aslr(&mut self, entropy: u64)
        requires
            old(self).wf(),
        ensures
            final(self).wf(),
            final(self).skipped_from(
                old(self),
                if old(self).end() > old(self).cursor() {
                    ((entropy % ((old(self).end() - old(self).cursor()) as u64)) / 4096) as nat
                } else {
                    0nat
                },
            ),
    {
        let span: u64 = self.end_virt - self.current_virt;
        let skip: u64 = if span > 0 {
            (entropy % span) / PAGE_SIZE
        } else {
            0
        };
        let ghost len = self.pages@.len() as int;
        proof {
            assert(self.pages@ =~= old(self).pages@ + Seq::new(0nat, |i: int| PageEntry::Unmapped));
            assert(self.flags@ =~= old(self).flags@ + Seq::new(
                0nat,
                |i: int| (PageFlags { present: false, writable: false, no_cache: false }),
            ));
        }
        let mut k: u64 = 0;
        while k < skip
            invariant
                k <= skip,
                old(self).wf(),
                skip * 4096 <= old(self).end() - old(self).cursor(),
                self.frame_allocator == old(self).frame_allocator,
                self.start_virt == old(self).start_virt,
                self.end_virt == old(self).end_virt,
                self.asked == old(self).asked,
                self.answered == old(self).answered,
                self.current_virt == old(self).current_virt + 4096 * k,
                self.pages@ == old(self).pages@ + Seq::new(k as nat, |i: int| PageEntry::Unmapped),
                self.flags@ == old(self).flags@ + Seq::new(
                    k as nat,
                    |i: int| (PageFlags { present: false, writable: false, no_cache: false }),
                ),
            decreases skip - k,
        {
            self.pages.push(PageEntry::Unmapped);
            self.flags.push(PageFlags { present: false, writable: false, no_cache: false });
            self.current_virt = self.current_virt + PAGE_SIZE;
            proof {
                assert(self.pages@ =~= old(self).pages@ + Seq::new(
                    (k + 1) as nat,
                    |i: int| PageEntry::Unmapped,
                ));
                assert(self.flags@ =~= old(self).flags@ + Seq::new(
                    (k + 1) as nat,
                    |i: int| (PageFlags { present: false, writable: false, no_cache: false }),
                ));
            }
            k += 1;
        }
        proof {
            assert forall|i: int| 0 <= i < self.pages().len() implies (
            #[trigger] self.pages()[i] matches PageEntry::Owned(f) ==> f % 4096 == 0 && self.frames().may_hand_out(f as int / 4096) && self.frames().bits()[f as int / 4096]) by {
                if i < len {
                    assert(self.pages()[i] == old(self).pages()[i]);
                }
            }
            assert forall|i: int, j: int|
                0 <= i < j < self.pages().len() && #[trigger] self.pages()[i] is Owned
                    && #[trigger] self.pages()[j] is Owned implies self.pages()[i]
                != self.pages()[j] by {
                if j < len {
                    assert(self.pages()[i] == old(self).pages()[i]);
                    assert(self.pages()[j] == old(self).pages()[j]);
                }
            }
        }
    }

    /// Maps the page that holds `addr`, which lies outside the window, anew
    /// with `flags`: to the frame it was mapped to, or to the frame that
    /// holds `known_phys` where it was not mapped. What the allocator
    /// records of its own pages does not change.
    pub fn remap(&mut self, addr: u64, known_phys: u64, flags: PageFlags) -> (r: Result<(), RemapError>)
        requires
            old(self).wf(),
            is_canonical(addr),
            is_physical(known_phys),
            addr - addr % 4096 + 4096 <= old(self).start() || addr >= old(self).end(),
        ensures
            final(self).wf(),
            final(self).same_as(old(self)),
            final(self).asked_to_remap(old(self), addr, known_phys, flags.bits(), r),
    {
        let page = page_containing(addr);
        let ghost start = self.asked@.len() as int;
        let unmapped = self.ask_unmap(page);
        let frame = match frame_after_unmap(unmapped, frame_containing(known_phys)) {
            Ok(f) => f,
            Err(e) => {
                proof {
                    assert(self.asked@.take(start) =~= old(self).asked@);
                }
                return Err(RemapError::Unmapping(e));
            },
        };
        self.ask_flush(page);
        let answer = self.ask_map(page, frame, flags.to_bits());
        match remapped(answer) {
            Ok(()) => {
                self.ask_flush(page);
                proof {
                    assert(self.asked@.take(start) =~= old(self).asked@);
                }
                Ok(())
            },
            Err(error) => {
                proof {
                    assert(self.asked@.take(start) =~= old(self).asked@);
                }
                Err(error)
            },
        }
    }
}

} // verus!
