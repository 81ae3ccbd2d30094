//! Single bits of a word.

use vstd::prelude::*;

verus! {

/// Bit `j` of `w` is set.
pub open spec fn has_bit(w: u64, j: u64) -> bool {
    (w >> j) & 1u64 == 1u64
}

/// No bit of zero is set.
pub proof fn lemma_zero_has_no_bit(k: u64)
    requires
        k < 64,
    ensures
        !has_bit(0u64, k),
{
    assert((0u64 >> k) & 1u64 != 1u64) by (bit_vector)
        requires k < 64;
}

/// Setting bit `j` sets that bit and leaves every other bit as it was.
pub proof fn lemma_set_bit(w: u64, j: u64, k: u64)
    requires
        j < 64,
        k < 64,
    ensures
        has_bit(w | (1u64 << j), k) == (k == j || has_bit(w, k)),
{
    assert(((w | (1u64 << j)) >> k) & 1u64 == 1u64 <==> (k == j || (w >> k) & 1u64 == 1u64))
        by (bit_vector)
        requires j < 64, k < 64;
}

} // verus!
