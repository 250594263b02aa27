//! Single bits of a `usize` word, and what the masking operations do to them.

use vstd::prelude::*;

verus! {

/// Whether bit `s` of word `w` is 1.
pub open spec fn word_bit(w: usize, s: usize) -> bool {
    (w >> s) & 1 == 1
}

/// A zero word has no bit set.
pub proof fn lemma_zero_word(t: usize)
    requires
        t < usize::BITS,
    ensures
        !word_bit(0, t),
{
    assert(t < usize::BITS ==> (0usize >> t) & 1 != 1) by (bit_vector);
}

/// Or-ing in a one-bit mask sets that bit and keeps the others.
pub proof fn lemma_set_word(w: usize, s: usize, t: usize)
    requires
        s < usize::BITS,
        t < usize::BITS,
    ensures
        word_bit(w | (1usize << s), t) == (t == s || word_bit(w, t)),
{
    assert(s < usize::BITS && t < usize::BITS ==> (((w | (1usize << s)) >> t) & 1 == 1 <==> (t
        == s || (w >> t) & 1 == 1))) by (bit_vector);
}

/// And-ing with an inverted one-bit mask clears that bit and keeps the others.
pub proof fn lemma_clear_word(w: usize, s: usize, t: usize)
    requires
        s < usize::BITS,
        t < usize::BITS,
    ensures
        word_bit(w & !(1usize << s), t) == (t != s && word_bit(w, t)),
{
    assert(s < usize::BITS && t < usize::BITS ==> (((w & !(1usize << s)) >> t) & 1 == 1 <==> (t
        != s && (w >> t) & 1 == 1))) by (bit_vector);
}

/// Xor-ing with a one-bit mask inverts that bit and keeps the others.
pub proof fn lemma_toggle_word(w: usize, s: usize, t: usize)
    requires
        s < usize::BITS,
        t < usize::BITS,
    ensures
        word_bit(w ^ (1usize << s), t) == if t == s {
            !word_bit(w, t)
        } else {
            word_bit(w, t)
        },
{
    assert(s < usize::BITS && t < usize::BITS && t == s ==> (((w ^ (1usize << s)) >> t) & 1 == 1
        <==> !((w >> t) & 1 == 1))) by (bit_vector);
    assert(s < usize::BITS && t < usize::BITS && t != s ==> (((w ^ (1usize << s)) >> t) & 1 == 1
        <==> (w >> t) & 1 == 1)) by (bit_vector);
}

} // verus!
