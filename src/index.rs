//! Word-packing arithmetic: which block holds a bit, at which shift, and how
//! many blocks a number of bits needs.

use vstd::prelude::*;

verus! {

/// Number of bits in one block, the width of a `usize` word.
pub open spec fn word_bits() -> int {
    usize::BITS as int
}

/// The block that holds bit `i`.
pub open spec fn block_of(i: int) -> int {
    i / word_bits()
}

/// The position of bit `i` inside its block.
pub open spec fn shift_of(i: int) -> int {
    i % word_bits()
}

/// The least number of blocks whose bits cover `n` bits: `ceil(n / word_bits())`.
pub open spec fn blocks_for(n: int) -> int {
    (n + word_bits() - 1) / word_bits()
}

/// The block width is that of a 32-bit or a 64-bit machine.
pub proof fn lemma_word_bits()
    ensures
        word_bits() == 32 || word_bits() == 64,
{
}

/// A bit lies in a block and at a shift inside the block's range, and the
/// pair of the two gives the bit back.
pub proof fn lemma_block_shift(i: int, nblocks: int)
    requires
        0 <= i < nblocks * word_bits(),
    ensures
        0 <= block_of(i) < nblocks,
        0 <= shift_of(i) < word_bits(),
        i == block_of(i) * word_bits() + shift_of(i),
{
    lemma_word_bits();
}

/// Two bits with the same block and the same shift are the same bit.
pub proof fn lemma_block_shift_unique(i: int, j: int)
    requires
        0 <= i,
        0 <= j,
        block_of(i) == block_of(j),
        shift_of(i) == shift_of(j),
    ensures
        i == j,
{
    lemma_word_bits();
}

/// `blocks_for(n)` blocks cover `n` bits, and one block fewer does not.
pub proof fn lemma_blocks_for(n: int)
    requires
        0 <= n,
    ensures
        0 <= blocks_for(n),
        n <= blocks_for(n) * word_bits(),
        (blocks_for(n) - 1) * word_bits() < n || n == 0,
        n > 0 ==> block_of(n - 1) == blocks_for(n) - 1,
{
    lemma_word_bits();
}

/// Rounding up adds a block exactly where a block is left partly filled.
pub proof fn lemma_blocks_for_split(n: int)
    requires
        0 <= n,
    ensures
        blocks_for(n) == n / word_bits() + if n % word_bits() == 0 { 0int } else { 1int },
{
    lemma_word_bits();
    if word_bits() == 32 {
        assert((n + 31) / 32 == n / 32 + if n % 32 == 0 { 0int } else { 1int });
    } else {
        assert((n + 63) / 64 == n / 64 + if n % 64 == 0 { 0int } else { 1int });
    }
}

/// Bits that fill whole blocks need exactly those blocks.
pub proof fn lemma_blocks_for_exact(k: int)
    requires
        0 <= k,
    ensures
        blocks_for(k * word_bits()) == k,
{
    lemma_word_bits();
}

/// Shift of bit `bit_index` within its block.
pub(crate) fn compute_shift(bit_index: usize) -> (r: usize)
    ensures
        r == shift_of(bit_index as int),
        r < usize::BITS,
{
    proof {
        lemma_word_bits();
    }
    bit_index % (usize::BITS as usize)
}

/// Index of the block that holds bit `bit_index`.
pub(crate) fn compute_block(bit_index: usize) -> (r: usize)
    ensures
        r == block_of(bit_index as int),
{
    proof {
        lemma_word_bits();
    }
    bit_index / (usize::BITS as usize)
}

/// Number of blocks needed to hold `amount` bits, rounded up.
pub(crate) fn compute_blocks_for_bits(amount: usize) -> (r: usize)
    ensures
        r == blocks_for(amount as int),
{
    proof {
        lemma_blocks_for_split(amount as int);
    }
    let width: usize = usize::BITS as usize;
    let whole: usize = amount / width;
    if amount % width == 0 {
        whole
    } else {
        whole + 1
    }
}

} // verus!
