//! The sizing oracle: the length of the longest string of a batch.

use vstd::prelude::*;

use crate::slice_str::SliceStr;

verus! {

/// The length of the longest string among `lens`, or 0 when there is none.
pub open spec fn max_len(lens: Seq<nat>) -> nat
    decreases lens.len(),
{
    if lens.len() == 0 {
        0
    } else {
        let rest = max_len(lens.drop_last());
        if lens.last() > rest {
            lens.last()
        } else {
            rest
        }
    }
}

/// The lengths of the strings of a batch, in batch order.
pub open spec fn lengths(batch: Seq<SliceStr>) -> Seq<nat> {
    batch.map_values(|s: SliceStr| s@.len())
}

/// The longest length bounds every length and, on a non-empty sequence, is one
/// of them.
pub proof fn lemma_max_len_is_max(lens: Seq<nat>)
    ensures
        forall|i: int| 0 <= i < lens.len() ==> lens[i] <= max_len(lens),
        lens.len() == 0 ==> max_len(lens) == 0,
        lens.len() > 0 ==> exists|i: int| 0 <= i < lens.len() && lens[i] == max_len(lens),
    decreases lens.len(),
{
    if lens.len() > 0 {
        let rest = lens.drop_last();
        lemma_max_len_is_max(rest);
        assert forall|i: int| 0 <= i < lens.len() implies lens[i] <= max_len(lens) by {
            if i < lens.len() - 1 {
                assert(lens[i] == rest[i]);
            }
        }
        if lens.last() <= max_len(rest) && rest.len() > 0 {
            let j = choose|j: int| 0 <= j < rest.len() && rest[j] == max_len(rest);
            assert(lens[j] == rest[j]);
        } else {
            assert(lens[lens.len() - 1] == max_len(lens));
        }
    }
}

/// Sizing depends on the lengths alone: two batches whose strings have the same
/// lengths, position by position, get the same longest length. In particular
/// asking twice about one batch gives one answer.
pub proof fn lemma_mmax_depends_on_lengths(a: Seq<SliceStr>, b: Seq<SliceStr>)
    requires
        a.len() == b.len(),
        forall|i: int| 0 <= i < a.len() ==> a[i]@.len() == b[i]@.len(),
    ensures
        max_len(lengths(a)) == max_len(lengths(b)),
{
    assert(lengths(a) =~= lengths(b));
}

/// Returns the length of the longest string of `batch`, or 0 for an empty batch.
pub fn calculate_mmax(batch: &[SliceStr]) -> (r: usize)
    ensures
        r == max_len(lengths(batch@)),
        forall|i: int| 0 <= i < batch@.len() ==> batch@[i]@.len() <= r,
        batch@.len() > 0 ==> exists|i: int| 0 <= i < batch@.len() && batch@[i]@.len() == r,
{
    let mut best: usize = 0;
    let mut i: usize = 0;
    while i < batch.len()
        invariant
            i <= batch@.len(),
            best == max_len(lengths(batch@.take(i as int))),
        decreases batch@.len() - i,
    {
        let n = batch[i].len();
        proof {
            let pre = lengths(batch@.take(i as int + 1));
            assert(pre.drop_last() =~= lengths(batch@.take(i as int)));
            assert(pre.last() == n);
        }
        if n > best {
            best = n;
        }
        i = i + 1;
    }
    proof {
        assert(batch@.take(i as int) =~= batch@);
        let lens = lengths(batch@);
        lemma_max_len_is_max(lens);
        assert forall|k: int| 0 <= k < batch@.len() implies batch@[k]@.len() <= best by {
            assert(lens[k] == batch@[k]@.len());
        }
        if batch@.len() > 0 {
            let k = choose|k: int| 0 <= k < lens.len() && lens[k] == max_len(lens);
            assert(batch@[k]@.len() == best);
        }
    }
    best
}

} // verus!
