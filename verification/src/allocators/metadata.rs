//! Bitmaps stored in words of 64 bits.

use vstd::prelude::*;

verus! {

/// Bit `index` of the bitmap: bit `index % 64` of word `index / 64`.
pub open spec fn bit_at(bitmap: Seq<u64>, index: int) -> bool {
    (bitmap[index / 64] >> ((index % 64) as u64)) & 1 == 1
}

proof fn lemma_set(word: u64, bit: u64, other: u64)
    requires
        bit < 64,
        other < 64,
    ensures
        (((word | (1u64 << bit)) >> other) & 1 == 1) == (other == bit || (word >> other) & 1 == 1),
{
    assert((((word | (1u64 << bit)) >> other) & 1 == 1) == (other == bit || (word >> other) & 1
        == 1)) by (bit_vector)
        requires
            bit < 64,
            other < 64,
    ;
}

proof fn lemma_clear(word: u64, bit: u64, other: u64)
    requires
        bit < 64,
        other < 64,
    ensures
        (((word & !(1u64 << bit)) >> other) & 1 == 1) == (other != bit && (word >> other) & 1 == 1),
{
    assert((((word & !(1u64 << bit)) >> other) & 1 == 1) == (other != bit && (word >> other) & 1
        == 1)) by (bit_vector)
        requires
            bit < 64,
            other < 64,
    ;
}

/// Sets bit `index`.
pub fn set_bit(bitmap: &mut Vec<u64>, index: usize)
    requires
        index / 64 < old(bitmap).len(),
    ensures
        final(bitmap)@.len() == old(bitmap)@.len(),
        forall|j: int|
            0 <= j < 64 * old(bitmap)@.len() ==> bit_at(final(bitmap)@, j) == (j == index || bit_at(
                old(bitmap)@,
                j,
            )),
{
    let word: usize = index / 64;
    let bit: u64 = (index % 64) as u64;
    let value: u64 = bitmap[word];
    bitmap.set(word, value | (1u64 << bit));
    proof {
        assert forall|j: int| 0 <= j < 64 * old(bitmap)@.len() implies bit_at(bitmap@, j) == (j
            == index || bit_at(old(bitmap)@, j)) by {
            if j / 64 == word {
                lemma_set(value, bit, (j % 64) as u64);
            }
        }
    }
}

/// Clears bit `index`.
pub fn clear_bit(bitmap: &mut Vec<u64>, index: usize)
    requires
        index / 64 < old(bitmap).len(),
    ensures
        final(bitmap)@.len() == old(bitmap)@.len(),
        forall|j: int|
            0 <= j < 64 * old(bitmap)@.len() ==> bit_at(final(bitmap)@, j) == (j != index && bit_at(
                old(bitmap)@,
                j,
            )),
{
    let word: usize = index / 64;
    let bit: u64 = (index % 64) as u64;
    let value: u64 = bitmap[word];
    bitmap.set(word, value & !(1u64 << bit));
    proof {
        assert forall|j: int| 0 <= j < 64 * old(bitmap)@.len() implies bit_at(bitmap@, j) == (j
            != index && bit_at(old(bitmap)@, j)) by {
            if j / 64 == word {
                lemma_clear(value, bit, (j % 64) as u64);
            }
        }
    }
}

/// Whether bit `index` is set.
pub fn is_bit_set(bitmap: &Vec<u64>, index: usize) -> (set: bool)
    requires
        index / 64 < bitmap.len(),
    ensures
        set == bit_at(bitmap@, index as int),
{
    let word: usize = index / 64;
    let bit: u64 = (index % 64) as u64;
    let value: u64 = bitmap[word];
    assert(((value & (1u64 << bit)) != 0) == ((value >> bit) & 1 == 1)) by (bit_vector)
        requires
            bit < 64,
    ;
    (value & (1u64 << bit)) != 0
}

} // verus!
