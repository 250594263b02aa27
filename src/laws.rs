//! Laws that relate the operations of a bit vector, stated over its view.

use vstd::prelude::*;

use crate::bit_vec::{all_off, flipped, grown, read, state_of, with_bit, BitState, BitVec, BitVecError};
use crate::index::{blocks_for, lemma_blocks_for, lemma_blocks_for_exact, word_bits};

verus! {

/// Growing for `need` bits keeps every bit there was, adds only bits that
/// are off, and leaves room for at least `need` bits.
proof fn lemma_grown(bits: Seq<bool>, need: int)
    requires
        0 <= need,
    ensures
        grown(bits, need).len() >= bits.len(),
        grown(bits, need).len() >= need,
        forall|j: int| 0 <= j < bits.len() ==> #[trigger] grown(bits, need)[j] == bits[j],
        forall|j: int|
            bits.len() <= j < grown(bits, need).len() ==> !#[trigger] grown(bits, need)[j],
{
    lemma_blocks_for(need);
    if need > bits.len() {
        assert(blocks_for(need) * word_bits() >= need);
    }
}

/// Every bit of a newly built vector reads as off: of `n` bits, none is on.
pub proof fn lemma_fresh_bits_off(n: int, i: int)
    requires
        0 <= i < n,
    ensures
        read(all_off(n), i) == Ok::<BitState, BitVecError>(BitState::Off),
{
}

/// Writing `On` to bit `i` and reading it gives `On`; writing `Off` after that
/// and reading gives `Off`.
pub proof fn lemma_set_then_get(v: BitVec, i: usize)
    requires
        v.wf(),
    ensures
        read(with_bit(v@, i as int, true), i as int) == Ok::<BitState, BitVecError>(BitState::On),
        read(with_bit(with_bit(v@, i as int, true), i as int, false), i as int) == Ok::<
            BitState,
            BitVecError,
        >(BitState::Off),
{
    lemma_grown(v@, i + 1);
    lemma_grown(with_bit(v@, i as int, true), i + 1);
}

/// Flipping bit `i` twice gives back its value before, with a bit that did
/// not exist yet reading as off; bits that existed are all as before.
pub proof fn lemma_flip_twice(v: BitVec, i: usize)
    requires
        v.wf(),
    ensures
        flipped(flipped(v@, i as int), i as int) == grown(v@, i + 1),
        i < v@.len() ==> flipped(flipped(v@, i as int), i as int) == v@,
        read(flipped(flipped(v@, i as int), i as int), i as int) == Ok::<BitState, BitVecError>(
            state_of(i < v@.len() && v@[i as int]),
        ),
{
    lemma_grown(v@, i + 1);
    let once = flipped(v@, i as int);
    lemma_grown(once, i + 1);
    assert(grown(once, i + 1) == once);
    assert(flipped(once, i as int) =~= grown(v@, i + 1));
}

/// Writing or flipping bit `i` never shortens the vector, and leaves it long
/// enough to hold bit `i`.
pub proof fn lemma_growth(v: BitVec, i: usize, on: bool)
    requires
        v.wf(),
    ensures
        with_bit(v@, i as int, on).len() >= v@.len(),
        with_bit(v@, i as int, on).len() >= i + 1,
        flipped(v@, i as int).len() >= v@.len(),
        flipped(v@, i as int).len() >= i + 1,
{
    lemma_grown(v@, i + 1);
}

/// Writing or flipping bit `i` leaves every other bit as it read before;
/// a bit that did not exist before reads as off.
pub proof fn lemma_other_bits_kept(v: BitVec, i: usize, on: bool, j: usize)
    requires
        v.wf(),
        j != i,
    ensures
        j < v@.len() ==> read(with_bit(v@, i as int, on), j as int) == read(v@, j as int),
        j < v@.len() ==> read(flipped(v@, i as int), j as int) == read(v@, j as int),
        v@.len() <= j < with_bit(v@, i as int, on).len() ==> read(
            with_bit(v@, i as int, on),
            j as int,
        ) == Ok::<BitState, BitVecError>(BitState::Off),
        v@.len() <= j < flipped(v@, i as int).len() ==> read(flipped(v@, i as int), j as int)
            == Ok::<BitState, BitVecError>(BitState::Off),
{
    lemma_grown(v@, i + 1);
}

/// Reading at or past the length fails with the length, and changes nothing.
pub proof fn lemma_read_out_of_bounds(v: BitVec, i: usize)
    requires
        v.wf(),
        i >= v@.len(),
    ensures
        read(v@, i as int) == Err::<BitState, BitVecError>(
            BitVecError::OutOfBounds { length: v@.len() as usize },
        ),
{
}

/// A vector built for `n` bits holds `n` rounded up to whole blocks: at
/// least `n` bits, fewer than one block more, and exactly `n` when `n` fills
/// whole blocks.
pub proof fn lemma_with_bits_rounding(n: usize)
    ensures
        n <= blocks_for(n as int) * word_bits() < n + word_bits(),
        (n as int) % word_bits() == 0 ==> blocks_for(n as int) * word_bits() == n,
{
    lemma_blocks_for(n as int);
    if (n as int) % word_bits() == 0 {
        let k = (n as int) / word_bits();
        assert(n == k * word_bits());
        lemma_blocks_for_exact(k);
    }
}

} // verus!
