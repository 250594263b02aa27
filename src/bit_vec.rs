//! The bit vector: its blocks, its view as a sequence of bits, and the
//! operations on it.

use vstd::prelude::*;

use crate::index::{
    block_of, blocks_for, compute_block, compute_blocks_for_bits, compute_shift,
    lemma_block_shift, lemma_block_shift_unique, lemma_blocks_for, lemma_word_bits, shift_of,
    word_bits,
};
use crate::word::{lemma_clear_word, lemma_set_word, lemma_toggle_word, lemma_zero_word, word_bit};

verus! {

/// The value of one bit.
#[derive(Clone, Copy, Debug, PartialEq, Eq, Structural)]
pub enum BitState {
    On,
    Off,
}

/// Why a read failed.
#[derive(Clone, Copy, Debug, PartialEq, Eq, Structural)]
pub enum BitVecError {
    /// The index is not below `length`, the vector's length in bits.
    OutOfBounds { length: usize },
}

/// The state that stands for a bit value.
pub open spec fn state_of(on: bool) -> BitState {
    if on {
        BitState::On
    } else {
        BitState::Off
    }
}

/// The bits that a sequence of blocks holds: bit `i` is bit `shift_of(i)` of
/// block `block_of(i)`.
pub open spec fn bits_of(blocks: Seq<usize>) -> Seq<bool> {
    Seq::new(
        (blocks.len() * word_bits()) as nat,
        |i: int| word_bit(blocks[block_of(i)], shift_of(i) as usize),
    )
}

/// `n` bits, all off.
pub open spec fn all_off(n: int) -> Seq<bool> {
    Seq::new(n as nat, |i: int| false)
}

/// `bits` grown, if needed, to whole blocks that cover `need` bits; the new
/// bits are off.
pub open spec fn grown(bits: Seq<bool>, need: int) -> Seq<bool> {
    if need <= bits.len() {
        bits
    } else {
        Seq::new(
            (blocks_for(need) * word_bits()) as nat,
            |j: int| j < bits.len() && bits[j],
        )
    }
}

/// `bits` after bit `i` is written with `on`.
pub open spec fn with_bit(bits: Seq<bool>, i: int, on: bool) -> Seq<bool> {
    grown(bits, i + 1).update(i, on)
}

/// `bits` after bit `i` is inverted.
pub open spec fn flipped(bits: Seq<bool>, i: int) -> Seq<bool> {
    grown(bits, i + 1).update(i, !grown(bits, i + 1)[i])
}

/// What reading bit `i` of `bits` gives.
pub open spec fn read(bits: Seq<bool>, i: int) -> Result<BitState, BitVecError> {
    if 0 <= i < bits.len() {
        Ok(state_of(bits[i]))
    } else {
        Err(BitVecError::OutOfBounds { length: bits.len() as usize })
    }
}

/// Whether a count of bits fits in a `usize`.
pub open spec fn fits(nbits: int) -> bool {
    nbits <= usize::MAX
}

/// Appending zero blocks up to `blocks_for(need)` grows the bits as `grown` says.
proof fn lemma_bits_of_grow(blocks: Seq<usize>, more: Seq<usize>, need: int)
    requires
        blocks.len() * word_bits() < need,
        more.len() == blocks_for(need),
        blocks.len() < more.len(),
        more.subrange(0, blocks.len() as int) == blocks,
        forall|k: int| blocks.len() <= k < more.len() ==> more[k] == 0,
    ensures
        bits_of(more) == grown(bits_of(blocks), need),
{
    lemma_blocks_for(need);
    let old_bits = bits_of(blocks);
    let new_bits = bits_of(more);
    assert forall|j: int| 0 <= j < new_bits.len() implies new_bits[j] == grown(old_bits, need)[j] by {
        lemma_block_shift(j, more.len() as int);
        if j < old_bits.len() {
            lemma_block_shift(j, blocks.len() as int);
            assert(more[block_of(j)] == more.subrange(0, blocks.len() as int)[block_of(j)]);
        } else {
            if block_of(j) < blocks.len() {
                lemma_block_shift(j, block_of(j) + 1);
                assert(j < (block_of(j) + 1) * word_bits());
                assert((block_of(j) + 1) * word_bits() <= blocks.len() * word_bits()) by (nonlinear_arith)
                    requires
                        block_of(j) + 1 <= blocks.len(),
                        word_bits() > 0,
                ;
            }
            lemma_zero_word(shift_of(j) as usize);
        }
    }
    assert(new_bits =~= grown(old_bits, need));
}

/// Replacing the block of bit `i` by a word that differs from it at most at
/// `i`'s shift changes bit `i` alone.
proof fn lemma_bits_of_update(blocks: Seq<usize>, i: int, w: usize)
    requires
        0 <= i < blocks.len() * word_bits(),
        forall|t: usize|
            t < usize::BITS && t != shift_of(i) ==> word_bit(w, t) == word_bit(
                blocks[block_of(i)],
                t,
            ),
    ensures
        bits_of(blocks.update(block_of(i), w)) == bits_of(blocks).update(
            i,
            word_bit(w, shift_of(i) as usize),
        ),
{
    lemma_block_shift(i, blocks.len() as int);
    let after = bits_of(blocks.update(block_of(i), w));
    let expect = bits_of(blocks).update(i, word_bit(w, shift_of(i) as usize));
    assert forall|j: int| 0 <= j < after.len() implies after[j] == expect[j] by {
        lemma_block_shift(j, blocks.len() as int);
        if j != i && block_of(j) == block_of(i) {
            if shift_of(j) == shift_of(i) {
                lemma_block_shift_unique(i, j);
            }
        }
    }
    assert(after =~= expect);
}

/// A growable sequence of bits, stored in `usize` blocks.
pub struct BitVec {
    blocks: Vec<usize>,
}

impl View for BitVec {
    type V = Seq<bool>;

    closed spec fn view(&self) -> Seq<bool> {
        bits_of(self.blocks@)
    }
}

impl BitVec {
    /// The length in bits is a whole number of blocks and fits in a `usize`.
    pub open spec fn wf(&self) -> bool {
        &&& (self@.len() as int) % word_bits() == 0
        &&& fits(self@.len() as int)
    }

    /// Creates a new empty bit vector.
    pub fn new() -> (r: BitVec)
        ensures
            r.wf(),
            r@ == Seq::<bool>::empty(),
    {
        let r = BitVec { blocks: Vec::new() };
        assert(r@ =~= Seq::<bool>::empty());
        r
    }

    /// Creates a new bit vector with preallocated bits (rounded up to the block size).
    pub fn with_bits(amount: usize) -> (r: BitVec)
        requires
            fits(blocks_for(amount as int) * word_bits()),
        ensures
            r.wf(),
            r@ == all_off(blocks_for(amount as int) * word_bits()),
    {
        BitVec::with_blocks(compute_blocks_for_bits(amount))
    }

    /// Creates a new bit vector with preallocated blocks of bits.
    pub fn with_blocks(amount: usize) -> (r: BitVec)
        requires
            fits(amount * word_bits()),
        ensures
            r.wf(),
            r@ == all_off(amount * word_bits()),
    {
        let r = BitVec { blocks: vec![0; amount] };
        proof {
            assert forall|i: int| 0 <= i < r@.len() implies !r@[i] by {
                lemma_block_shift(i, amount as int);
                lemma_zero_word(shift_of(i) as usize);
            }
            assert(r@ =~= all_off(amount * word_bits()));
            lemma_word_bits();
            assert((amount * word_bits()) % word_bits() == 0) by (nonlinear_arith)
                requires
                    word_bits() > 0,
            ;
        }
        r
    }

    /// Returns the length of the bit vector in bits: how many bits can be
    /// used without further allocation.
    pub fn len(&self) -> (r: usize)
        requires
            self.wf(),
        ensures
            r == self@.len(),
    {
        self.blocks.len() * (usize::BITS as usize)
    }

    /// Returns the state of the bit at `index`, or `OutOfBounds` with the
    /// length when `index` is not below it.
    pub fn get(&self, index: usize) -> (r: Result<BitState, BitVecError>)
        requires
            self.wf(),
        ensures
            r == read(self@, index as int),
    {
        if index >= self.len() {
            return Err(BitVecError::OutOfBounds { length: self.len() });
        }
        proof {
            lemma_block_shift(index as int, self.blocks@.len() as int);
        }
        let block = self.blocks[compute_block(index)];
        if (block >> compute_shift(index)) & 1 == 1 {
            Ok(BitState::On)
        } else {
            Ok(BitState::Off)
        }
    }
    /// Grows the vector, if needed, so that it holds bit `index`.
    fn cover(&mut self, index: usize)
        requires
            old(self).wf(),
            index < old(self)@.len() || fits(blocks_for(index + 1) * word_bits()),
        ensures
            final(self).wf(),
            final(self)@ == grown(old(self)@, index + 1),
            index < final(self)@.len(),
    {
        if index >= self.len() {
            let ghost before = self.blocks@;
            proof {
                lemma_blocks_for(index + 1);
            }
            let needed = compute_blocks_for_bits(index + 1);
            proof {
                lemma_word_bits();
                assert(before.len() * word_bits() <= index);
                assert(before.len() < needed) by (nonlinear_arith)
                    requires
                        before.len() * word_bits() <= index,
                        index + 1 <= needed * word_bits(),
                        word_bits() > 0,
                ;
            }
            self.blocks.resize(needed, 0);
            proof {
                assert forall|k: int| before.len() <= k < self.blocks@.len() implies self.blocks@[k]
                    == 0 by {
                    assert(cloned::<usize>(0, self.blocks@[k]));
                }
                lemma_bits_of_grow(before, self.blocks@, index + 1);
                assert((needed * word_bits()) % word_bits() == 0) by (nonlinear_arith)
                    requires
                        word_bits() > 0,
                ;
            }
        }
    }

    /// Sets the bit at `index` to `state`, growing the vector first when
    /// `index` is not below its length.
    pub fn set(&mut self, index: usize, state: BitState)
        requires
            old(self).wf(),
            index < old(self)@.len() || fits(blocks_for(index + 1) * word_bits()),
        ensures
            final(self).wf(),
            final(self)@ == with_bit(old(self)@, index as int, state == BitState::On),
    {
        self.cover(index);
        proof {
            lemma_block_shift(index as int, self.blocks@.len() as int);
        }
        let block = compute_block(index);
        let shift = compute_shift(index);
        let word = self.blocks[block];
        let changed = match state {
            BitState::On => word | (1usize << shift),
            BitState::Off => word & !(1usize << shift),
        };
        proof {
            assert forall|t: usize| t < usize::BITS implies word_bit(changed, t) == if t == shift {
                state == BitState::On
            } else {
                word_bit(word, t)
            } by {
                match state {
                    BitState::On => lemma_set_word(word, shift, t),
                    BitState::Off => lemma_clear_word(word, shift, t),
                }
            }
            lemma_bits_of_update(self.blocks@, index as int, changed);
        }
        self.blocks[block] = changed;
    }

    /// Inverts the bit at `index`, growing the vector first when `index` is
    /// not below its length.
    pub fn flip(&mut self, index: usize)
        requires
            old(self).wf(),
            index < old(self)@.len() || fits(blocks_for(index + 1) * word_bits()),
        ensures
            final(self).wf(),
            final(self)@ == flipped(old(self)@, index as int),
    {
        self.cover(index);
        proof {
            lemma_block_shift(index as int, self.blocks@.len() as int);
        }
        let block = compute_block(index);
        let shift = compute_shift(index);
        let word = self.blocks[block];
        let changed = word ^ (1usize << shift);
        proof {
            assert forall|t: usize| t < usize::BITS implies word_bit(changed, t) == if t == shift {
                !word_bit(word, t)
            } else {
                word_bit(word, t)
            } by {
                lemma_toggle_word(word, shift, t);
            }
            lemma_bits_of_update(self.blocks@, index as int, changed);
        }
        self.blocks[block] = changed;
    }
}

} // verus!
