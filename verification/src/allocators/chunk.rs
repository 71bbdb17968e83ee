//! Chunks: stretches of pages mapped at rising addresses, from which runs
//! are made.

use crate::memory::BitmapFrameAllocator;
use crate::page_allocator::{
    covers, granted_since, lemma_mapping_granted, lemma_mapping_next, lemma_take_lowest,
    lowest_first, mapping_requests, trace_kept, MapToError, Mapper, MapperAnswer, MapperRequest,
};
use crate::paging::{page_containing, PageFlags};
use vstd::pervasive::unreached;
use vstd::prelude::*;

verus! {

/// Address of the first chunk.
pub const FIRST_CHUNK_ADDR: u64 = 0x4444_4444_0000;

/// Number of pages that hold `size` bytes.
pub open spec fn chunk_pages(size: int) -> int {
    (size + 4095) / 4096
}

/// Flag bits of a chunk's pages: present and writable.
pub const CHUNK_PAGE_FLAGS: u64 = 3;

/// Hands out chunks at addresses that only rise.
pub struct ChunkManager {
    next_addr: u64,
    asked: Ghost<Seq<MapperRequest>>,
    answered: Ghost<Seq<MapperAnswer>>,
}

impl ChunkManager {
    /// Address of the next chunk.
    pub closed spec fn next(&self) -> u64 {
        self.next_addr
    }

    /// Everything that the manager has asked of the page tables, in order.
    pub closed spec fn requests(&self) -> Seq<MapperRequest> {
        self.asked@
    }

    /// What the page tables answered to each request, in the same order.
    pub closed spec fn answers(&self) -> Seq<MapperAnswer> {
        self.answered@
    }

    /// The next chunk starts at a page boundary in the lower half of the
    /// address space, and every request has its answer.
    pub open spec fn wf(&self) -> bool {
        &&& self.next() % 4096 == 0
        &&& FIRST_CHUNK_ADDR <= self.next() <= 0x0000_8000_0000_0000
        &&& self.answers().len() == self.requests().len()
    }

    /// Asks the page tables to map `page` to `frame`.
    fn ask_map<M: Mapper>(&mut self, mapper: &mut M, page: u64, frame: u64, flags: u64) -> (r: Result<
        (),
        MapToError,
    >)
        ensures
            final(self).next_addr == old(self).next_addr,
            final(self).asked@ == old(self).asked@.push(MapperRequest::MapTo { page, frame, flags }),
            final(self).answered@ == old(self).answered@.push(MapperAnswer::Mapped(r)),
    {
        let answer = mapper.map_to(page, frame, flags);
        proof {
            self.asked@ = self.asked@.push(MapperRequest::MapTo { page, frame, flags });
            self.answered@ = self.answered@.push(MapperAnswer::Mapped(answer));
        }
        answer
    }

    /// Asks the processor to forget the translation of `page`.
    fn ask_flush<M: Mapper>(&mut self, mapper: &mut M, page: u64)
        ensures
            final(self).next_addr == old(self).next_addr,
            final(self).asked@ == old(self).asked@.push(MapperRequest::Flush { page }),
            final(self).answered@ == old(self).answered@.push(MapperAnswer::Flushed),
    {
        proof {
            self.asked@ = self.asked@.push(MapperRequest::Flush { page });
            self.answered@ = self.answered@.push(MapperAnswer::Flushed);
        }
        mapper.flush(page);
    }

    /// A manager that has handed out nothing.
    pub fn new() -> (manager: Self)
        ensures
            manager.wf(),
            manager.next() == FIRST_CHUNK_ADDR,
            manager.requests() == Seq::<MapperRequest>::empty(),
    {
        ChunkManager {
            next_addr: FIRST_CHUNK_ADDR,
            asked: Ghost(Seq::empty()),
            answered: Ghost(Seq::empty()),
        }
    }

    /// Sets the pages for `size` bytes aside at the next address and asks
    /// the page tables to map each, present and writable, to the lowest free
    /// frame, and to flush it. Returns the address of the chunk when the
    /// page tables take every mapping. Once they refuse a page, nothing
    /// more is asked and the result is `None`; the pages mapped before that
    /// stay mapped, and the addresses are used up either way.
    pub fn allocate_chunk<M: Mapper>(
        &mut self,
        mapper: &mut M,
        frames: &mut BitmapFrameAllocator,
        size: usize,
    ) -> (chunk: Option<u64>)
        requires
            old(self).wf(),
            old(frames).wf(),
            old(self).next() + 4096 * chunk_pages(size as int) <= 0x0000_8000_0000_0000,
            chunk_pages(size as int) <= old(frames).free_count(),
        ensures
            final(self).wf(),
            final(frames).wf(),
            final(self).next() == old(self).next() + 4096 * chunk_pages(size as int),
            final(frames).frames() == old(frames).frames(),
            chunk matches Some(addr) ==> addr == old(self).next() && final(frames).free_count()
                + chunk_pages(size as int) == old(frames).free_count(),
            trace_kept(final(self).requests(), final(self).answers(), old(self).answers()),
            chunk is Some <==> granted_since(
                final(self).requests(),
                final(self).answers(),
                old(self).requests().len() as int,
            ),
            exists|taken: Seq<u64>|
                #![trigger covers(old(frames).bits(), final(frames).bits(), taken, old(frames).frames())]
                {
                    &&& taken.len() <= chunk_pages(size as int)
                    &&& covers(old(frames).bits(), final(frames).bits(), taken, old(frames).frames())
                    &&& lowest_first(old(frames).bits(), taken)
                    &&& if chunk is Some {
                        &&& taken.len() == chunk_pages(size as int)
                        &&& final(self).requests() == old(self).requests() + mapping_requests(
                            old(self).next() as int,
                            taken,
                            CHUNK_PAGE_FLAGS,
                        )
                    } else {
                        &&& taken.len() > 0
                        &&& final(self).requests() == old(self).requests() + mapping_requests(
                            old(self).next() as int,
                            taken.drop_last(),
                            CHUNK_PAGE_FLAGS,
                        ).push(
                            MapperRequest::MapTo {
                                page: (old(self).next() + 4096 * (taken.len() - 1)) as u64,
                                frame: taken.last(),
                                flags: CHUNK_PAGE_FLAGS,
                            },
                        )
                    }
                },
    {
        let num_pages: usize = size / 4096 + if size % 4096 != 0 {
            1usize
        } else {
            0usize
        };
        let start_addr: u64 = self.next_addr;
        self.next_addr = start_addr + (num_pages as u64) * 4096;
        let flags = PageFlags::read_write().to_bits();
        let ghost before = frames.bits();
        let ghost mut taken: Seq<u64> = Seq::empty();
        let mut i: usize = 0;
        proof {
            assert(self.asked@ =~= old(self).asked@ + mapping_requests(
                start_addr as int,
                taken,
                flags,
            ));
        }
        while i < num_pages
            invariant
                i <= num_pages,
                flags == CHUNK_PAGE_FLAGS,
                self.asked@ == old(self).asked@ + mapping_requests(start_addr as int, taken, flags),
                trace_kept(self.asked@, self.answered@, old(self).answered@),
                granted_since(self.asked@, self.answered@, old(self).asked@.len() as int),
                num_pages == chunk_pages(size as int),
                start_addr + 4096 * num_pages <= 0x0000_8000_0000_0000,
                start_addr == old(self).next(),
                self.next_addr == start_addr + 4096 * num_pages,
                old(self).wf(),
                frames.wf(),
                frames.frames() == old(frames).frames(),
                before == old(frames).bits(),
                taken.len() == i,
                num_pages <= old(frames).free_count(),
                frames.free_count() + i == old(frames).free_count(),
                covers(before, frames.bits(), taken, frames.frames()),
                lowest_first(before, taken),
            decreases num_pages - i,
        {
            let page = page_containing(start_addr + 4096 * (i as u64));
            let ghost holder = *frames;
            let frame = match frames.allocate_frame() {
                Some(frame) => frame,
                None => unreached(),
            };
            proof {
                assert(holder.is_free(frame as int / 4096));
                assert forall|j: int| 0 <= j < frame / 4096 implies holder.bits()[j] by {
                    assert(!holder.is_free(j));
                }
                lemma_take_lowest(before, holder.bits(), taken, holder.frames(), frame);
            }
            let ghost mapped = taken;
            let ghost earlier = *self;
            proof {
                taken = taken.push(frame);
            }
            let answer = self.ask_map(mapper, page, frame, flags);
            match answer {
                Ok(()) => {
                    self.ask_flush(mapper, page);
                    proof {
                        lemma_mapping_granted(
                            earlier.asked@,
                            earlier.answered@,
                            old(self).asked@.len() as int,
                            MapperRequest::MapTo { page, frame, flags },
                            answer,
                            MapperRequest::Flush { page },
                        );
                        lemma_mapping_next(start_addr as int, mapped, frame, flags);
                        assert(self.asked@ =~= old(self).asked@ + mapping_requests(
                            start_addr as int,
                            taken,
                            flags,
                        ));
                    }
                },
                Err(_) => {
                    proof {
                        assert(taken.drop_last() =~= mapped);
                        assert(taken.last() == frame);
                        let at = earlier.asked@.len() as int;
                        assert(self.asked@[at] is MapTo);
                        assert(self.asked@ =~= old(self).asked@ + mapping_requests(
                            start_addr as int,
                            taken.drop_last(),
                            flags,
                        ).push(
                            MapperRequest::MapTo {
                                page: (start_addr + 4096 * (taken.len() - 1)) as u64,
                                frame: taken.last(),
                                flags,
                            },
                        ));
                    }
                    return None;
                },
            }
            i += 1;
        }
        Some(start_addr)
    }
}

} // verus!
