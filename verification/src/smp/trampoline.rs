//! The trampoline: the frame of low memory in which an application
//! processor starts, with the values that the boot processor leaves for it.

use vstd::bytes::{
    lemma_auto_spec_u32_to_from_le_bytes, lemma_auto_spec_u64_to_from_le_bytes,
    spec_u32_from_le_bytes, spec_u32_to_le_bytes, spec_u64_from_le_bytes, spec_u64_to_le_bytes,
    u32_from_le_bytes, u32_to_le_bytes, u64_from_le_bytes, u64_to_le_bytes,
};
use vstd::prelude::*;
use vstd::slice::slice_subrange;

verus! {

/// Physical address of the trampoline.
pub const TRAMPOLINE_BASE: u64 = 0x8000;

/// Size of the trampoline's frame in bytes.
pub const TRAMPOLINE_SIZE: usize = 4096;

/// Offset of the page-table root.
pub const CR3VAL_OFFSET: usize = 0;

/// Offset of the address of the kernel's entry for application processors.
pub const KCODE_OFFSET: usize = 8;

/// Offset of the top of the stack.
pub const KSTACK_OFFSET: usize = 16;

/// Offset of the initial GS value.
pub const KGSVAL_OFFSET: usize = 24;

/// Offset of the communication word.
pub const COMMWORD_OFFSET: usize = 32;

/// What the boot processor leaves in the trampoline for the processor that
/// it starts next.
#[derive(Clone, Copy, Debug, PartialEq, Eq, Structural)]
pub struct TrampolineFields {
    /// Root of the page tables in use.
    pub cr3: u64,
    /// Address of the kernel's entry for application processors.
    pub ap_entry: u64,
    /// Top of the stack to use once in long mode.
    pub stack_top: u64,
    /// Initial GS value.
    pub gs: u64,
}

/// `bytes` with the bytes from `offset` on replaced by `data`.
pub open spec fn overwritten(bytes: Seq<u8>, offset: int, data: Seq<u8>) -> Seq<u8> {
    Seq::new(
        bytes.len(),
        |i: int|
            if offset <= i < offset + data.len() {
                data[i - offset]
            } else {
                bytes[i]
            },
    )
}

/// `bytes` with the four fields in place, in little-endian order, and the
/// communication word zero.
pub open spec fn patched(bytes: Seq<u8>, fields: TrampolineFields) -> Seq<u8> {
    overwritten(
        overwritten(
            overwritten(
                overwritten(
                    overwritten(bytes, CR3VAL_OFFSET as int, spec_u64_to_le_bytes(fields.cr3)),
                    KCODE_OFFSET as int,
                    spec_u64_to_le_bytes(fields.ap_entry),
                ),
                KSTACK_OFFSET as int,
                spec_u64_to_le_bytes(fields.stack_top),
            ),
            KGSVAL_OFFSET as int,
            spec_u64_to_le_bytes(fields.gs),
        ),
        COMMWORD_OFFSET as int,
        spec_u32_to_le_bytes(0),
    )
}

/// The 64-bit value that `bytes` hold at `offset`, in little-endian order.
pub open spec fn u64_at(bytes: Seq<u8>, offset: int) -> u64 {
    spec_u64_from_le_bytes(bytes.subrange(offset, offset + 8))
}

/// The 32-bit value that `bytes` hold at `offset`, in little-endian order.
pub open spec fn u32_at(bytes: Seq<u8>, offset: int) -> u32 {
    spec_u32_from_le_bytes(bytes.subrange(offset, offset + 4))
}

/// Copies `data` over the bytes from `offset` on.
fn write_at(bytes: &mut Vec<u8>, offset: usize, data: &Vec<u8>)
    requires
        offset + data.len() <= old(bytes).len(),
    ensures
        final(bytes)@ == overwritten(old(bytes)@, offset as int, data@),
{
    let mut i: usize = 0;
    while i < data.len()
        invariant
            i <= data.len(),
            offset + data.len() <= bytes.len(),
            bytes@.len() == old(bytes)@.len(),
            forall|j: int|
                0 <= j < bytes@.len() ==> bytes@[j] == if offset <= j < offset + i {
                    data@[j - offset]
                } else {
                    old(bytes)@[j]
                },
        decreases data.len() - i,
    {
        bytes.set(offset + i, data[i]);
        i += 1;
    }
    assert(bytes@ =~= overwritten(old(bytes)@, offset as int, data@));
}

/// The frame of the trampoline: its 4096 bytes.
pub struct TrampolineImage {
    bytes: Vec<u8>,
}

impl TrampolineImage {
    /// The bytes of the frame.
    pub closed spec fn bytes(&self) -> Seq<u8> {
        self.bytes@
    }

    /// The frame has its full size.
    pub open spec fn wf(&self) -> bool {
        self.bytes().len() == TRAMPOLINE_SIZE
    }

    /// The page-table root that the frame holds.
    pub open spec fn cr3(&self) -> u64 {
        u64_at(self.bytes(), CR3VAL_OFFSET as int)
    }

    /// The entry address that the frame holds.
    pub open spec fn ap_entry(&self) -> u64 {
        u64_at(self.bytes(), KCODE_OFFSET as int)
    }

    /// The stack top that the frame holds.
    pub open spec fn stack_top(&self) -> u64 {
        u64_at(self.bytes(), KSTACK_OFFSET as int)
    }

    /// The GS value that the frame holds.
    pub open spec fn gs(&self) -> u64 {
        u64_at(self.bytes(), KGSVAL_OFFSET as int)
    }

    /// The communication word that the frame holds.
    pub open spec fn commword(&self) -> u32 {
        u32_at(self.bytes(), COMMWORD_OFFSET as int)
    }

    /// The bytes of the frame, to be copied to the trampoline's address.
    pub fn as_bytes(&self) -> (bytes: &Vec<u8>)
        ensures
            bytes@ == self.bytes(),
    {
        &self.bytes
    }

    /// The 64-bit value at `offset`.
    pub fn read_u64(&self, offset: usize) -> (value: u64)
        requires
            offset + 8 <= self.bytes().len(),
        ensures
            value == u64_at(self.bytes(), offset as int),
    {
        let len = self.bytes.len();
        assert(offset + 8 <= len);
        u64_from_le_bytes(slice_subrange(self.bytes.as_slice(), offset, offset + 8))
    }

    /// The communication word: 1 once the processor that was started has
    /// reached the kernel.
    pub fn read_commword(&self) -> (value: u32)
        requires
            self.wf(),
        ensures
            value == self.commword(),
    {
        u32_from_le_bytes(slice_subrange(self.bytes.as_slice(), COMMWORD_OFFSET, COMMWORD_OFFSET + 4))
    }

    /// Writes the four fields and clears the communication word. The rest of
    /// the frame stays as it is.
    pub fn patch(&mut self, fields: TrampolineFields)
        requires
            old(self).wf(),
        ensures
            final(self).wf(),
            final(self).bytes() == patched(old(self).bytes(), fields),
            final(self).cr3() == fields.cr3,
            final(self).ap_entry() == fields.ap_entry,
            final(self).stack_top() == fields.stack_top,
            final(self).gs() == fields.gs,
            final(self).commword() == 0,
    {
        write_at(&mut self.bytes, CR3VAL_OFFSET, &u64_to_le_bytes(fields.cr3));
        write_at(&mut self.bytes, KCODE_OFFSET, &u64_to_le_bytes(fields.ap_entry));
        write_at(&mut self.bytes, KSTACK_OFFSET, &u64_to_le_bytes(fields.stack_top));
        write_at(&mut self.bytes, KGSVAL_OFFSET, &u64_to_le_bytes(fields.gs));
        write_at(&mut self.bytes, COMMWORD_OFFSET, &u32_to_le_bytes(0));
        proof {
            lemma_patched_fields(old(self).bytes(), fields);
        }
    }
}

/// The fields read from a patched frame are the fields that were written,
/// and the communication word reads zero.
pub proof fn lemma_patched_fields(bytes: Seq<u8>, fields: TrampolineFields)
    requires
        bytes.len() >= COMMWORD_OFFSET + 4,
    ensures
        patched(bytes, fields).len() == bytes.len(),
        u64_at(patched(bytes, fields), CR3VAL_OFFSET as int) == fields.cr3,
        u64_at(patched(bytes, fields), KCODE_OFFSET as int) == fields.ap_entry,
        u64_at(patched(bytes, fields), KSTACK_OFFSET as int) == fields.stack_top,
        u64_at(patched(bytes, fields), KGSVAL_OFFSET as int) == fields.gs,
        u32_at(patched(bytes, fields), COMMWORD_OFFSET as int) == 0,
        forall|i: int| COMMWORD_OFFSET + 4 <= i < bytes.len() ==> patched(bytes, fields)[i] == bytes[i],
{
    lemma_auto_spec_u64_to_from_le_bytes();
    lemma_auto_spec_u32_to_from_le_bytes();
    let after = patched(bytes, fields);
    assert(after.subrange(0, 8) =~= spec_u64_to_le_bytes(fields.cr3));
    assert(after.subrange(8, 16) =~= spec_u64_to_le_bytes(fields.ap_entry));
    assert(after.subrange(16, 24) =~= spec_u64_to_le_bytes(fields.stack_top));
    assert(after.subrange(24, 32) =~= spec_u64_to_le_bytes(fields.gs));
    assert(after.subrange(32, 36) =~= spec_u32_to_le_bytes(0));
}

/// The frame of the trampoline with the code in `blob` at its start and
/// zeroes behind it.
pub fn load_ap_trampoline(blob: &Vec<u8>) -> (image: TrampolineImage)
    requires
        blob.len() <= TRAMPOLINE_SIZE,
    ensures
        image.wf(),
        forall|i: int|
            0 <= i < TRAMPOLINE_SIZE ==> image.bytes()[i] == if i < blob.len() {
                blob@[i]
            } else {
                0u8
            },
{
    let mut bytes: Vec<u8> = Vec::new();
    let mut i: usize = 0;
    while i < TRAMPOLINE_SIZE
        invariant
            i <= TRAMPOLINE_SIZE,
            bytes@.len() == i,
            forall|j: int|
                0 <= j < i ==> bytes@[j] == if j < blob.len() {
                    blob@[j]
                } else {
                    0u8
                },
        decreases TRAMPOLINE_SIZE - i,
    {
        if i < blob.len() {
            bytes.push(blob[i]);
        } else {
            bytes.push(0);
        }
        i += 1;
    }
    TrampolineImage { bytes }
}

/// Writes the fields for the next processor into the trampoline and clears
/// the communication word.
pub fn patch_trampoline(image: &mut TrampolineImage, fields: TrampolineFields)
    requires
        old(image).wf(),
    ensures
        final(image).wf(),
        final(image).bytes() == patched(old(image).bytes(), fields),
        final(image).cr3() == fields.cr3,
        final(image).ap_entry() == fields.ap_entry,
        final(image).stack_top() == fields.stack_top,
        final(image).gs() == fields.gs,
        final(image).commword() == 0,
{
    image.patch(fields);
}

/// What one look at the communication word and the clock decides.
#[derive(Clone, Copy, Debug, PartialEq, Eq, Structural)]
pub enum Rendezvous {
    /// The word reads 1: the processor has reached the kernel.
    Arrived,
    /// The word does not read 1 and the time is up.
    TimedOut,
    /// The word does not read 1 and there is time left.
    Waiting,
}

/// Decides one round of the wait for a processor: it has arrived once the
/// communication word reads 1; else the wait ends when `timeout_us`
/// microseconds have passed since `start_us`.
pub fn wait_for_ap(commword: u32, start_us: u64, now_us: u64, timeout_us: u64) -> (r: Rendezvous)
    requires
        start_us <= now_us,
    ensures
        r == if commword == 1 {
            Rendezvous::Arrived
        } else if now_us - start_us >= timeout_us {
            Rendezvous::TimedOut
        } else {
            Rendezvous::Waiting
        },
{
    if commword == 1 {
        Rendezvous::Arrived
    } else if now_us - start_us >= timeout_us {
        Rendezvous::TimedOut
    } else {
        Rendezvous::Waiting
    }
}

} // verus!
