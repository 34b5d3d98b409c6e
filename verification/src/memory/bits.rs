//! Single bits and runs of bits in a 64-bit word.

use vstd::prelude::*;

verus! {

/// Whether bit `index` of `word` is set, bit 0 being the lowest.
pub open spec fn word_bit(word: u64, index: u64) -> bool {
    (word >> index) & 1u64 == 1u64
}

/// The word whose set bits are those with an index from `low` up to, and
/// without, `high`.
pub open spec fn run_mask(low: u64, high: u64) -> u64 {
    if high <= low {
        0
    } else if high - low >= 64 {
        u64::MAX
    } else {
        (((1u64 << ((high - low) as u64)) - 1) as u64) << low
    }
}

/// Computes the word whose set bits are those from `low` up to `high`.
pub fn make_run_mask(low: usize, high: usize) -> (mask: u64)
    requires
        low <= high <= 64,
    ensures
        mask == run_mask(low as u64, high as u64),
{
    let width: usize = high - low;
    if width == 0 {
        0
    } else if width >= 64 {
        u64::MAX
    } else {
        assert((1u64 << (width as u64)) >= 1) by (bit_vector)
            requires
                width < 64,
        ;
        ((1u64 << width) - 1) << low
    }
}

/// The set bits of a run mask are those of the run.
pub proof fn lemma_run_mask_bit(low: u64, high: u64, index: u64)
    by (bit_vector)
    requires
        low <= high <= 64,
        index < 64,
    ensures
        word_bit(run_mask(low, high), index) == (low <= index < high),
{
}

/// The bits of a union, of an intersection and of a difference.
pub proof fn lemma_combined_bit(a: u64, b: u64, index: u64)
    by (bit_vector)
    requires
        index < 64,
    ensures
        word_bit(a | b, index) == (word_bit(a, index) || word_bit(b, index)),
        word_bit(a & b, index) == (word_bit(a, index) && word_bit(b, index)),
        word_bit(a & !b, index) == (word_bit(a, index) && !word_bit(b, index)),
        word_bit(!a, index) == !word_bit(a, index),
        !word_bit(0u64, index),
        word_bit(0xffff_ffff_ffff_ffffu64, index),
{
}

/// A word with a set bit has one at the position that counts its trailing
/// zeros.
pub proof fn lemma_set_bit_exists(word: u64) -> (index: u64)
    requires
        word != 0,
    ensures
        index < 64,
        word_bit(word, index),
{
    vstd::std_specs::bits::axiom_u64_trailing_zeros(word);
    vstd::std_specs::bits::u64_trailing_zeros(word) as u64
}

} // verus!
